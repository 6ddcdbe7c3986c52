//! Bundles the declarations of the public API, and whatever they refer to, at the
//! top level of one file.

use std::collections::VecDeque;
use vstd::prelude::*;

use super::analyzer::{
    analyze_exports, exports_supported, targets_of, targets_upto, NamedExport,
    SymbolIdOrRemoteDep, Target, UniqueSymbolId,
};
use super::binder::ModuleId;
use super::bundle::{
    after, bundle_env, bundle_items, decl_added, decl_emitted, decls_emitted, default_const,
    default_decl, default_emitted, emptied, export_emitted, export_queued, exports_met, finished,
    has_module_syntax, is_literal, is_single_var, items_upto, mapping_met, met, missing_notes,
    module_emitted, module_items, modules_wf, namespaces_made, other_exports, own_specifiers,
    queued_specifiers, renaming_of, stepped, symbol_emitted, with_declarator, with_namespace,
    Bundle, DiagnosticKind, Emission, Emitting, Note,
};
use super::bundle_proofs::{
    bundle_ok, info_ok, infos_ok, is_pending, keys_upto, lemma_analyzed_bounded,
    lemma_namespaces_made, lemma_stepped, symbol_of_key,
};
use super::idents::{all_assigned, idents, IdentMapping, IdentTransformer};
use super::names::{
    key_of, names_wf, own_name, top_level_name, with_top_level_name, Names, TopLevelSymbols,
};
use super::namespaces::make_namespace;
use super::output::{
    comments_ok, created, emitted_of, exports_of, make_decl_item, with_emitted, Emitted,
    ModuleEmitInfo, Namespace, NamespaceEmitInfo, Out, OutputContainer,
};
use super::root_symbol::{
    is_symbol, symbol_at, ModuleExport, ModuleInfo, RootSymbol, Symbol, SymbolDecl,
};
use super::transform::{single, visited, Mode};
use super::transformer::{
    import_equals, maybe_infer_type_from_lit, qualified_name, DtsTransformer, ModuleEnv, SourceId,
};
use crate::collections::{
    distinct_keys, has_key, key_place, lemma_key_place, with_entry, IdMap, PairMap, TextMap,
};
use crate::comments::Comments;
use crate::helpers::{
    binding_ident, const_decl, export_specifier, ident, made, make, one, placed, ts_type_ann, two,
};
use crate::syntax::{group_trees, trees, Kind, Node, Role, Span};
use crate::text::same_text;

verus! {

/// What a name that may be missing stands for.
pub open spec fn name_of(name: Option<String>) -> Option<Seq<char>> {
    match name {
        Some(name) => Some(name@),
        None => None,
    }
}

/// What a queue of symbols stands for.
pub open spec fn pending_of(s: Seq<(Option<String>, UniqueSymbolId)>) -> Seq<
    (Option<Seq<char>>, UniqueSymbolId),
> {
    Seq::new(s.len(), |i: int| (name_of(s[i].0), s[i].1))
}

/// What a list of exports stands for.
pub open spec fn queued_of(s: Seq<(String, String)>) -> Seq<(Seq<char>, Seq<char>)> {
    Seq::new(s.len(), |i: int| (s[i].0@, s[i].1@))
}

/// Bundles declarations.
pub struct DtsBundler<'a> {
    pub root_symbol: &'a RootSymbol,
    pub output: OutputContainer,
    pub pending_symbols: VecDeque<(Option<String>, UniqueSymbolId)>,
    pub analyzed_symbols: PairMap<()>,
    pub emitted_symbols: PairMap<()>,
    pub top_level_symbols: TopLevelSymbols,
    pub queued_named_exports: Vec<(String, String)>,
    pub to_namespace: PairMap<()>,
    pub notes: Vec<Note>,
    pub unsupported: bool,
}

/// The modules among the keys.
pub open spec fn modules_of(s: Seq<((usize, usize), ())>) -> Seq<(usize, ())> {
    Seq::new(s.len(), |i: int| (s[i].0.0, ()))
}

/// The symbols of a map.
pub open spec fn keys_of(s: Seq<((usize, usize), ())>) -> Set<(usize, usize)> {
    Set::new(|k: (usize, usize)| has_key(s, k))
}

proof fn lemma_keys_insert(s: Seq<((usize, usize), ())>, key: (usize, usize))
    requires
        distinct_keys(s),
    ensures
        keys_of(with_entry(s, key, ())) == keys_of(s).insert(key),
{
    let more = with_entry(s, key, ());
    lemma_key_place(s, key);
    assert forall|k: (usize, usize)| keys_of(more).contains(k) <==> keys_of(s).insert(
        key,
    ).contains(k) by {
        lemma_key_place(s, k);
        lemma_key_place(more, k);
        if has_key(s, k) {
            let i = key_place(s, k);
            assert(more[i].0 == k);
        }
        if k == key {
            if has_key(s, key) {
                assert(more[key_place(s, key)].0 == k);
            } else {
                assert(more[s.len() as int].0 == k);
            }
        }
        if has_key(more, k) && k != key {
            let i = key_place(more, k);
            if i < s.len() {
                assert(s[i].0 == k);
            }
        }
    }
    assert(keys_of(more) =~= keys_of(s).insert(key));
}

impl<'a> DtsBundler<'a> {
    pub open spec fn view(&self) -> Bundle {
        Bundle {
            out: self.output@,
            names: self.top_level_symbols@,
            pending: pending_of(self.pending_symbols@),
            analyzed: keys_of(self.analyzed_symbols@),
            emitted: keys_of(self.emitted_symbols@),
            queued: queued_of(self.queued_named_exports@),
            to_namespace: modules_of(self.to_namespace@),
            notes: self.notes@,
            unsupported: self.unsupported,
        }
    }

    pub open spec fn modules(&self) -> Seq<ModuleInfo> {
        self.root_symbol.modules@
    }

    /// Whether the parts are well formed, and the comments are those of the source
    /// files that came.
    pub open spec fn wf(&self) -> bool {
        &&& self.output.wf()
        &&& self.analyzed_symbols.wf()
        &&& self.emitted_symbols.wf()
        &&& self.top_level_symbols.wf()
        &&& self.to_namespace.wf()
        &&& forall|i: int|
            0 <= i < self.to_namespace@.len() ==> (#[trigger] self.to_namespace@[i]).0.1 == 0
        &&& self.output@.overflown || comments_ok(
            self.modules(),
            self.output@.starts,
            self.output.global_comments,
        )
    }

    /// Notes that a symbol was met.
    fn meet(&mut self, id: UniqueSymbolId)
        requires
            old(self).wf(),
        ensures
            final(self).wf(),
            final(self).root_symbol == old(self).root_symbol,
            final(self)@ == met(old(self)@, id),
    {
        let key: (usize, usize) = (id.module_id, id.symbol_id);
        let ghost before = self@;
        if !self.analyzed_symbols.contains_key(key) {
            proof {
                self.analyzed_symbols.lemma_distinct();
                lemma_keys_insert(self.analyzed_symbols@, key);
            }
            self.analyzed_symbols.insert(key, ());
            self.pending_symbols.push_back((None, id));
            assert(self@.pending =~= before.pending.push((None, id)));
            assert(self@ =~= met(before, id));
        }
    }

    /// Notes that a module is referred to as a whole.
    fn add_to_namespace(&mut self, module_id: usize)
        requires
            old(self).wf(),
        ensures
            final(self).wf(),
            final(self).root_symbol == old(self).root_symbol,
            final(self)@ == (Bundle {
                to_namespace: with_entry(old(self)@.to_namespace, module_id, ()),
                ..old(self)@
            }),
    {
        let ghost before = self@;
        let ghost entries = self.to_namespace@;
        proof {
            lemma_modules_entry(entries, module_id);
            lemma_key_place(entries, (module_id, 0usize));
        }
        self.to_namespace.insert((module_id, 0), ());
        proof {
            assert forall|i: int| 0 <= i < self.to_namespace@.len() implies (
            #[trigger] self.to_namespace@[i]).0.1 == 0 by {
                if i < entries.len() && i != key_place(entries, (module_id, 0usize)) {
                    assert(self.to_namespace@[i] == entries[i]);
                }
            }
            assert(self@ =~= (Bundle {
                to_namespace: with_entry(before.to_namespace, module_id, ()),
                ..before
            }));
        }
    }

    /// Puts the exports of a module into its namespace.
    fn meet_exports(&mut self, module_id: usize)
        requires
            old(self).wf(),
            module_id < old(self).modules().len(),
            has_key(old(self)@.out.infos, module_id),
            emitted_of(old(self)@.out.infos, module_id).namespace is Some,
        ensures
            final(self).wf(),
            final(self).root_symbol == old(self).root_symbol,
            final(self)@ == exports_met(
                old(self).modules(),
                module_id,
                old(self).modules()[module_id as int].exports@.len(),
                old(self)@,
            ),
    {
        let ghost before = self@;
        let ghost modules = self.modules();
        let root_symbol: &'a RootSymbol = self.root_symbol;
        let exports: &Vec<ModuleExport> = &root_symbol.modules[module_id].exports;
        let mut i: usize = 0;
        while i < exports.len()
            invariant
                i <= exports@.len(),
                modules == root_symbol.modules@,
                root_symbol == old(self).root_symbol,
                self.root_symbol == root_symbol,
                module_id < modules.len(),
                exports == modules[module_id as int].exports,
                self.wf(),
                self@ == exports_met(modules, module_id, i as nat, before),
                has_key(self@.out.infos, module_id),
                emitted_of(self@.out.infos, module_id).namespace is Some,
            decreases exports@.len() - i,
        {
            let export: &ModuleExport = &exports[i];
            assert(modules[module_id as int].exports@[i as int] == export);
            match export.definition {
                Some(id) => {
                    self.meet(id);
                    let ghost middle = self@;
                    let ghost e = emitted_of(middle.out.infos, module_id);
                    let ghost changed = Emitted {
                        namespace: Some(
                            Namespace {
                                exports: e.namespace.unwrap().exports.push((export.name@, id)),
                                ..e.namespace.unwrap()
                            },
                        ),
                        ..e
                    };
                    proof {
                        super::output::lemma_created(
                            middle.out.infos,
                            module_id,
                            module_id,
                        );
                        super::output::lemma_with_emitted(
                            middle.out.infos,
                            module_id,
                            changed,
                            module_id,
                        );
                    }
                    self.add_export(module_id, export.name.clone(), id);
                    if id.module_id != module_id {
                        self.add_to_namespace(id.module_id);
                    }
                    assert(self@ =~= exports_met(modules, module_id, (i + 1) as nat, before));
                },
                None => {},
            }
            i = i + 1;
        }
    }

    /// Adds an export to the namespace of a module.
    fn add_export(&mut self, module_id: usize, name: String, id: UniqueSymbolId)
        requires
            old(self).wf(),
            has_key(old(self)@.out.infos, module_id),
            emitted_of(old(self)@.out.infos, module_id).namespace is Some,
        ensures
            final(self).wf(),
            final(self).root_symbol == old(self).root_symbol,
            ({
                let infos = old(self)@.out.infos;
                let e = emitted_of(infos, module_id);
                let namespace = e.namespace.unwrap();
                final(self)@ == (Bundle {
                    out: Out {
                        infos: with_emitted(
                            infos,
                            module_id,
                            Emitted {
                                namespace: Some(
                                    Namespace {
                                        exports: namespace.exports.push((name@, id)),
                                        ..namespace
                                    },
                                ),
                                ..e
                            },
                        ),
                        ..old(self)@.out
                    },
                    ..old(self)@
                })
            }),
    {
        let ghost before = self@;
        let ghost text = name@;
        let info: &mut ModuleEmitInfo = self.output.module_emit_infos.get_or_create(
            ModuleId(module_id),
        );
        let ghost e = info@;
        match &mut info.namespace_info {
            Some(namespace) => {
                let ghost earlier = exports_of(namespace.exports@);
                namespace.exports.push((name, id));
                assert(exports_of(namespace.exports@) =~= earlier.push((text, id)));
            },
            None => {},
        }
        proof {
            let namespace = e.namespace.unwrap();
            let changed = Emitted {
                namespace: Some(
                    Namespace { exports: namespace.exports.push((text, id)), ..namespace },
                ),
                ..e
            };
            assert(self@.out.infos == with_emitted(before.out.infos, module_id, changed));
            assert(self@.out =~= (Out { infos: self@.out.infos, ..before.out }));
            assert(self@ =~= (Bundle { out: self@.out, ..before }));
        }
    }

    /// Gives a module a namespace, unless it has one. This tells whether the
    /// namespace exports nothing yet.
    fn make_namespace(&mut self, module_id: usize, name: String) -> (r: bool)
        requires
            old(self).wf(),
        ensures
            final(self).wf(),
            final(self).root_symbol == old(self).root_symbol,
            final(self)@ == (Bundle {
                out: Out {
                    infos: with_namespace(old(self)@.out.infos, module_id, name@),
                    ..old(self)@.out
                },
                ..old(self)@
            }),
            has_key(final(self)@.out.infos, module_id),
            emitted_of(final(self)@.out.infos, module_id).namespace is Some,
            r == (emitted_of(final(self)@.out.infos, module_id).namespace.unwrap().exports.len()
                == 0),
    {
        let ghost before = self@;
        let ghost text = name@;
        let ghost infos = created(before.out.infos, module_id);
        let info: &mut ModuleEmitInfo = self.output.module_emit_infos.get_or_create(
            ModuleId(module_id),
        );
        let ghost e = info@;
        if info.namespace_info.is_none() {
            let namespace = NamespaceEmitInfo { name, exports: Vec::new() };
            assert(exports_of(namespace.exports@) =~= Seq::empty());
            info.namespace_info = Some(namespace);
        }
        let empty: bool = match &info.namespace_info {
            Some(namespace) => namespace.exports.len() == 0,
            None => true,
        };
        proof {
            super::output::lemma_created(before.out.infos, module_id, module_id);
            let changed = if e.namespace is Some {
                e
            } else {
                Emitted {
                    namespace: Some(Namespace { name: text, exports: Seq::empty() }),
                    ..e
                }
            };
            lemma_key_place(infos, module_id);
            assert(self@.out.infos == with_emitted(infos, module_id, changed));
            super::output::lemma_with_emitted(infos, module_id, changed, module_id);
            if e.namespace is Some {
                assert(with_emitted(infos, module_id, e) =~= infos);
            }
            assert(self@.out =~= (Out { infos: self@.out.infos, ..before.out }));
            assert(self@ =~= (Bundle { out: self@.out, ..before }));
        }
        empty
    }

    /// Emits a module as a namespace.
    fn emit_module(&mut self, module_id: usize, name: &str, Ghost(e): Ghost<Emission>)
        requires
            old(self).wf(),
            module_id < old(self).modules().len(),
            e.id.module_id == module_id,
            e.name == name@,
        ensures
            final(self).wf(),
            final(self).root_symbol == old(self).root_symbol,
            final(self)@ == module_emitted(old(self).modules(), e, old(self)@),
    {
        if self.make_namespace(module_id, name.to_owned()) {
            self.meet_exports(module_id);
        }
    }

    /// Adds a declaration to the output.
    fn add_decl(
        &mut self,
        id: UniqueSymbolId,
        name: &str,
        export_name: &Option<String>,
        decl: Node,
        span: Span,
        mapping: &mut IdentMapping,
    )
        requires
            old(self).wf(),
            old(mapping).mapping.wf(),
            is_symbol(old(self).modules(), id),
        ensures
            final(self).wf(),
            final(mapping).mapping.wf(),
            final(self).root_symbol == old(self).root_symbol,
            (Emitting { b: final(self)@, m: final(mapping)@ }) == decl_added(
                old(self).modules(),
                Emission { id, name: name@, export_name: name_of(*export_name) },
                Emitting { b: old(self)@, m: old(mapping)@ },
                decl@,
                span,
            ),
    {
        let ghost before = self@;
        if decl.kind == Kind::VarDecl && !is_one_var(&decl) {
            self.unsupported = true;
            assert(self@ =~= (Bundle { unsupported: true, ..before }));
            return ;
        }
        let root_symbol: &'a RootSymbol = self.root_symbol;
        let module: &ModuleInfo = &root_symbol.modules[id.module_id];
        let symbol: &Symbol = &module.symbols[id.symbol_id];
        let sources: Vec<SourceId> = Vec::new();
        let env = ModuleEnv {
            ranges: None,
            comments: &module.comments,
            in_namespace: false,
            sources: &sources,
        };
        assert(env@.sources =~= Seq::empty());
        assert(env@ == bundle_env(*module));
        let mut transformer: DtsTransformer = DtsTransformer::new();
        let tree: Node = transformer.visit(&env, &decl);
        let ghost v = visited(decl@, Mode::Plain, env@, super::transformer::fresh());
        assert(v == single(tree@, transformer@));
        mapping.add_all(symbol, &tree);
        let ghost noted = transformer.missing_types@;
        let mut i: usize = 0;
        assert(self.notes@ =~= before.notes + missing_notes(id.module_id, noted).take(0));
        while i < transformer.missing_types.len()
            invariant
                i <= transformer.missing_types@.len(),
                noted == transformer.missing_types@,
                self.wf(),
                self.root_symbol == root_symbol,
                root_symbol == old(self).root_symbol,
                self@ == (Bundle {
                    notes: before.notes + missing_notes(id.module_id, noted).take(i as int),
                    ..before
                }),
            decreases transformer.missing_types@.len() - i,
        {
            let ghost earlier = self@;
            self.notes.push(
                Note {
                    kind: DiagnosticKind::MissingReturnType,
                    module_id: id.module_id,
                    pos: transformer.missing_types[i],
                },
            );
            i = i + 1;
            assert(self.notes@ =~= before.notes + missing_notes(id.module_id, noted).take(
                i as int,
            ));
            assert(self@ =~= (Bundle { notes: self.notes@, ..earlier }));
        }
        assert(missing_notes(id.module_id, noted).take(i as int) =~= missing_notes(
            id.module_id,
            noted,
        ));
        if transformer.unsupported || holds_module_syntax(&tree) {
            self.unsupported = true;
        }
        let is_export: bool = match export_name {
            Some(export_name) => same_text(export_name.as_str(), name),
            None => false,
        };
        let ghost noted_b = self@;
        let item: Node = make_decl_item(tree, name, span, is_export);
        self.output.add_module_item(&root_symbol.modules, ModuleId(id.module_id), item);
        proof {
            assert(self@ =~= decl_added(
                old(self).modules(),
                Emission { id, name: name@, export_name: name_of(*export_name) },
                Emitting { b: before, m: old(mapping)@ },
                decl@,
                span,
            ).b);
        }
    }

    /// Emits a declaration that is exported.
    fn emit_export(
        &mut self,
        id: UniqueSymbolId,
        name: &str,
        export_name: &Option<String>,
        n: &Node,
        mapping: &mut IdentMapping,
    )
        requires
            old(self).wf(),
            old(mapping).mapping.wf(),
            is_symbol(old(self).modules(), id),
        ensures
            final(self).wf(),
            final(mapping).mapping.wf(),
            final(self).root_symbol == old(self).root_symbol,
            (Emitting { b: final(self)@, m: final(mapping)@ }) == export_emitted(
                old(self).modules(),
                Emission { id, name: name@, export_name: name_of(*export_name) },
                Emitting { b: old(self)@, m: old(mapping)@ },
                n@,
            ),
    {
        let ghost before = self@;
        match n.get(Role::Decl) {
            Some(decl) => match decl.kind {
                Kind::ClassDecl
                | Kind::FnDecl
                | Kind::TsEnumDecl
                | Kind::TsInterfaceDecl
                | Kind::TsTypeAliasDecl
                | Kind::VarDecl => {
                    self.add_decl(id, name, export_name, decl.dup(), n.span, mapping);
                },
                Kind::TsModuleDecl => {
                    self.notes.push(
                        Note {
                            kind: DiagnosticKind::UnsupportedTsNamespace,
                            module_id: id.module_id,
                            pos: decl.span.lo,
                        },
                    );
                    assert(self@ =~= (Bundle { notes: self.notes@, ..before }));
                },
                _ => {
                    self.unsupported = true;
                    assert(self@ =~= (Bundle { unsupported: true, ..before }));
                },
            },
            None => {
                self.unsupported = true;
                assert(self@ =~= (Bundle { unsupported: true, ..before }));
            },
        }
    }

    /// Emits a declaration that is exported by default.
    fn emit_default(
        &mut self,
        id: UniqueSymbolId,
        name: &str,
        export_name: &Option<String>,
        n: &Node,
        mapping: &mut IdentMapping,
    )
        requires
            old(self).wf(),
            old(mapping).mapping.wf(),
            is_symbol(old(self).modules(), id),
        ensures
            final(self).wf(),
            final(mapping).mapping.wf(),
            final(self).root_symbol == old(self).root_symbol,
            (Emitting { b: final(self)@, m: final(mapping)@ }) == default_emitted(
                old(self).modules(),
                Emission { id, name: name@, export_name: name_of(*export_name) },
                Emitting { b: old(self)@, m: old(mapping)@ },
                n@,
            ),
    {
        let ghost before = self@;
        match n.get(Role::Decl) {
            Some(decl) => {
                if decl.kind == Kind::ClassExpr {
                    match decl.get(Role::Class) {
                        Some(class) => {
                            let class: Node = make_default_decl(
                                Kind::ClassDecl,
                                name,
                                Role::Class,
                                class,
                            );
                            self.add_decl(id, name, export_name, class, n.span, mapping);
                            return ;
                        },
                        None => {},
                    }
                } else if decl.kind == Kind::FnExpr {
                    match decl.get(Role::Function) {
                        Some(function) => {
                            let function: Node = make_default_decl(
                                Kind::FnDecl,
                                name,
                                Role::Function,
                                function,
                            );
                            self.add_decl(id, name, export_name, function, n.span, mapping);
                            return ;
                        },
                        None => {},
                    }
                } else if decl.kind == Kind::TsInterfaceDecl {
                    self.add_decl(id, name, export_name, decl.dup(), n.span, mapping);
                    return ;
                }
            },
            None => {},
        }
        self.unsupported = true;
        assert(self@ =~= (Bundle { unsupported: true, ..before }));
    }

    /// Emits a declaration of a symbol.
    fn emit_decl(
        &mut self,
        id: UniqueSymbolId,
        name: &str,
        export_name: &Option<String>,
        decl: &SymbolDecl,
        mapping: &mut IdentMapping,
    )
        requires
            old(self).wf(),
            old(mapping).mapping.wf(),
            is_symbol(old(self).modules(), id),
        ensures
            final(self).wf(),
            final(mapping).mapping.wf(),
            final(self).root_symbol == old(self).root_symbol,
            (Emitting { b: final(self)@, m: final(mapping)@ }) == decl_emitted(
                old(self).modules(),
                Emission { id, name: name@, export_name: name_of(*export_name) },
                Emitting { b: old(self)@, m: old(mapping)@ },
                *decl,
            ),
    {
        let ghost e = Emission { id, name: name@, export_name: name_of(*export_name) };
        let ghost before = self@;
        // implementations behind signatures are left out
        if decl.has_overloads {
            return ;
        }
        if decl.is_definition {
            match &decl.node {
                Some(node) => {
                    let n: &Node = &node.tree;
                    match n.kind {
                        Kind::Module => {
                            self.emit_module(id.module_id, name, Ghost(e));
                            return ;
                        },
                        Kind::ExportDecl => {
                            self.emit_export(id, name, export_name, n, mapping);
                            return ;
                        },
                        Kind::ExportDefaultDecl => {
                            self.emit_default(id, name, export_name, n, mapping);
                            return ;
                        },
                        Kind::ExportDefaultExpr => match n.get(Role::Expr) {
                            Some(expr) => {
                                if is_literal_kind(expr.kind) {
                                    let constant: Node = make_default_const(name, expr.kind);
                                    self.add_decl(
                                        id,
                                        name,
                                        export_name,
                                        constant,
                                        n.span,
                                        mapping,
                                    );
                                    return ;
                                }
                            },
                            None => {},
                        },
                        Kind::ClassDecl
                        | Kind::FnDecl
                        | Kind::TsEnumDecl
                        | Kind::TsInterfaceDecl
                        | Kind::TsTypeAliasDecl => {
                            self.add_decl(id, name, export_name, n.dup(), n.span, mapping);
                            return ;
                        },
                        Kind::VarDecl => match node.declarator {
                            Some(i) => {
                                if i < n.children.len() {
                                    let variable: Node = make_with_declarator(n, i);
                                    self.add_decl(
                                        id,
                                        name,
                                        export_name,
                                        variable,
                                        n.span,
                                        mapping,
                                    );
                                    return ;
                                }
                            },
                            None => {},
                        },
                        _ => {},
                    }
                },
                None => {},
            }
        }
        self.unsupported = true;
        assert(self@ =~= (Bundle { unsupported: true, ..before }));
    }

    /// Meets the symbols of identifiers, and notes them for the module.
    fn meet_mapping(&mut self, module_id: usize, mapping: &IdMap<UniqueSymbolId>)
        requires
            old(self).wf(),
            mapping.wf(),
        ensures
            final(self).wf(),
            final(self).root_symbol == old(self).root_symbol,
            final(self)@ == mapping_met(old(self)@, module_id, mapping@, mapping@.len()),
    {
        let ghost before = self@;
        let mut i: usize = 0;
        while i < mapping.len()
            invariant
                i <= mapping@.len(),
                mapping.wf(),
                self.wf(),
                self.root_symbol == old(self).root_symbol,
                self@ == mapping_met(before, module_id, mapping@, i as nat),
            decreases mapping@.len() - i,
        {
            let id: UniqueSymbolId = *mapping.value_at(i);
            self.meet(id);
            let ghost middle = self@;
            let info: &mut ModuleEmitInfo = self.output.module_emit_infos.get_or_create(
                ModuleId(module_id),
            );
            let ghost e = info@;
            info.ident_mapping.insert(mapping.key_at(i).dup(), id);
            proof {
                let infos = created(middle.out.infos, module_id);
                let changed = Emitted {
                    mapping: with_entry(e.mapping, mapping@[i as int].0, mapping@[i as int].1),
                    ..e
                };
                assert(self@.out.infos == with_emitted(infos, module_id, changed));
                assert(self@.out =~= (Out { infos: self@.out.infos, ..middle.out }));
                assert(self@ =~= mapping_met(before, module_id, mapping@, (i + 1) as nat));
            }
            i = i + 1;
        }
    }

    /// Emits a symbol, unless it was emitted before.
    fn emit_symbol(&mut self, id: UniqueSymbolId, name: &str, export_name: &Option<String>)
        requires
            old(self).wf(),
            is_symbol(old(self).modules(), id),
        ensures
            final(self).wf(),
            final(self).root_symbol == old(self).root_symbol,
            final(self)@ == symbol_emitted(
                old(self).modules(),
                Emission { id, name: name@, export_name: name_of(*export_name) },
                old(self)@,
            ),
    {
        let ghost e = Emission { id, name: name@, export_name: name_of(*export_name) };
        let ghost modules = self.modules();
        let key: (usize, usize) = (id.module_id, id.symbol_id);
        let ghost before = self@;
        if self.emitted_symbols.contains_key(key) {
            return ;
        }
        proof {
            self.emitted_symbols.lemma_distinct();
            lemma_keys_insert(self.emitted_symbols@, key);
        }
        self.emitted_symbols.insert(key, ());
        let root_symbol: &'a RootSymbol = self.root_symbol;
        let module: &ModuleInfo = &root_symbol.modules[id.module_id];
        if !module.is_esm {
            self.unsupported = true;
        }
        let symbol: &Symbol = &module.symbols[id.symbol_id];
        let mut mapping: IdentMapping = IdentMapping::new();
        let ghost start = Emitting { b: self@, m: mapping@ };
        assert(start.b =~= (Bundle {
            emitted: before.emitted.insert(key),
            unsupported: before.unsupported || !module.is_esm,
            ..before
        }));
        let mut i: usize = 0;
        while i < symbol.decls.len()
            invariant
                i <= symbol.decls@.len(),
                self.wf(),
                mapping.mapping.wf(),
                self.root_symbol == old(self).root_symbol,
                modules == self.modules(),
                is_symbol(modules, id),
                *symbol == symbol_at(modules, id),
                e == (Emission { id, name: name@, export_name: name_of(*export_name) }),
                (Emitting { b: self@, m: mapping@ }) == decls_emitted(
                    modules,
                    e,
                    start,
                    i as nat,
                ),
            decreases symbol.decls@.len() - i,
        {
            self.emit_decl(id, name, export_name, &symbol.decls[i], &mut mapping);
            i = i + 1;
        }
        let ghost done = self@;
        if mapping.unsupported {
            self.unsupported = true;
        }
        assert(self@ =~= (Bundle {
            unsupported: done.unsupported || mapping@.unsupported,
            ..done
        }));
        self.meet_mapping(id.module_id, &mapping.mapping);
    }

    /// Emits the next symbol.
    fn step(&mut self)
        requires
            old(self).wf(),
            modules_wf(old(self).modules()),
            bundle_ok(old(self).modules(), old(self)@),
            old(self).pending_symbols@.len() > 0,
        ensures
            final(self).wf(),
            final(self).root_symbol == old(self).root_symbol,
            final(self)@ == stepped(old(self).modules(), old(self)@),
    {
        let ghost before = self@;
        let ghost modules = self.modules();
        assert(is_symbol(modules, before.pending[0].1));
        let (export_name, id) = self.pending_symbols.pop_front().unwrap();
        assert(self@.pending =~= before.pending.skip(1));
        assert(before.pending[0] == (name_of(export_name), id));
        let root_symbol: &'a RootSymbol = self.root_symbol;
        let symbol: &Symbol = &root_symbol.modules[id.module_id].symbols[id.symbol_id];
        if symbol.decls.len() == 0 || !symbol.decls[0].is_definition {
            self.unsupported = true;
            assert(self@ =~= stepped(modules, before));
            return ;
        }
        let name: String = self.top_level_symbols.ensure_top_level_name(id, symbol);
        let ghost own = own_name(*symbol, id.module_id);
        let ghost e = Emission {
            id,
            name: top_level_name(before.names, id, own),
            export_name: name_of(export_name),
        };
        assert(self@ =~= (Bundle {
            names: with_top_level_name(before.names, id, own),
            pending: before.pending.skip(1),
            ..before
        }));
        proof {
            self.emitted_symbols.lemma_distinct();
            lemma_keys_insert(self.emitted_symbols@, key_of(id));
        }
        let again: bool = self.emitted_symbols.contains_key((id.module_id, id.symbol_id));
        assert(again == before.emitted.contains(key_of(id)));
        self.emit_symbol(id, name.as_str(), &export_name);
        let ghost done = self@;
        match export_name {
            Some(export_name) => {
                if again || !same_text(export_name.as_str(), name.as_str()) {
                    let ghost text = (name@, export_name@);
                    self.queued_named_exports.push((name, export_name));
                    assert(self@.queued =~= done.queued.push(text));
                    assert(self@ =~= export_queued(done, e, again));
                }
            },
            None => {},
        }
    }
}

proof fn lemma_modules_entry(s: Seq<((usize, usize), ())>, module_id: usize)
    requires
        forall|i: int| 0 <= i < s.len() ==> (#[trigger] s[i]).0.1 == 0,
    ensures
        modules_of(with_entry(s, (module_id, 0usize), ())) == with_entry(
            modules_of(s),
            module_id,
            (),
        ),
{
    let key = (module_id, 0usize);
    let t = modules_of(s);
    lemma_key_place(s, key);
    lemma_key_place(t, module_id);
    let p = key_place(s, key);
    let q = key_place(t, module_id);
    if p < q {
        assert(s[p].0 == key);
        assert(t[p].0 == module_id);
    }
    if q < p {
        assert(t[q].0 == module_id);
        assert(s[q].0 == key);
    }
    assert(modules_of(with_entry(s, key, ())) =~= with_entry(t, module_id, ()));
}

fn is_one_var(n: &Node) -> (r: bool)
    ensures
        r == is_single_var(n@),
{
    if n.children.len() != 1 {
        return false;
    }
    assert(n@.children[0] == n.children@[0]@);
    match n.children[0].get(Role::Name) {
        Some(name) => name.kind == Kind::BindingIdent,
        None => false,
    }
}

fn is_literal_kind(kind: Kind) -> (r: bool)
    ensures
        r == is_literal(kind),
{
    kind == Kind::Str || kind == Kind::Bool || kind == Kind::Null || kind == Kind::Num || kind
        == Kind::BigInt || kind == Kind::Regex || kind == Kind::JsxText
}

/// Whether a declaration holds syntax that only stands in modules.
fn holds_module_syntax(n: &Node) -> (r: bool)
    ensures
        r == has_module_syntax(n@),
    decreases n,
{
    if n.kind == Kind::Module || n.kind == Kind::TsModuleBlock || n.kind == Kind::ExportNamed
        || n.kind == Kind::ExportDefaultExpr {
        return true;
    }
    let mut i: usize = 0;
    while i < n.children.len()
        invariant
            i <= n.children@.len(),
            !(n.kind == Kind::Module || n.kind == Kind::TsModuleBlock || n.kind
                == Kind::ExportNamed || n.kind == Kind::ExportDefaultExpr),
            forall|j: int| 0 <= j < i ==> !has_module_syntax(#[trigger] n@.children[j]),
        decreases n.children@.len() - i,
    {
        assert(n@.children[i as int] == n.children@[i as int]@);
        if holds_module_syntax(&n.children[i]) {
            assert(has_module_syntax(n@.children[i as int]));
            return true;
        }
        i = i + 1;
    }
    false
}

fn make_default_decl(kind: Kind, name: &str, role: Role, part: &Node) -> (r: Node)
    ensures
        r@ == default_decl(kind, name@, role, part@),
{
    let mut r: Node = make(
        kind,
        two(placed(Role::Name, ident(name.to_owned())), part.dup_at(role)),
    );
    r.flags.declare = true;
    r
}

fn make_default_const(name: &str, literal: Kind) -> (r: Node)
    ensures
        r@ == default_const(name@, literal),
{
    let ann: Option<Node> = match maybe_infer_type_from_lit(literal) {
        Some(t) => Some(ts_type_ann(t)),
        None => None,
    };
    let mut r: Node = const_decl(binding_ident(ident(name.to_owned()), ann), None);
    r.flags.declare = true;
    r
}

fn make_with_declarator(n: &Node, i: usize) -> (r: Node)
    requires
        i < n.children@.len(),
    ensures
        r@ == with_declarator(n@, i as int),
{
    assert(n@.children[i as int] == n.children@[i as int]@);
    let children: Vec<Node> = one(n.children[i].dup());
    Node {
        kind: n.kind,
        role: n.role,
        span: n.span,
        text: n.text.clone(),
        flags: n.flags,
        origin: n.origin,
        children,
    }
}

/// Whether a bundle goes no further: no symbol is still to be emitted, or there was
/// something that cannot be dealt with.
pub open spec fn stops(b: Bundle) -> bool {
    b.pending.len() == 0 || b.unsupported || b.out.overflown
}

/// Whether a bundle stops after `n` symbols, and not before.
pub open spec fn stops_after(modules: Seq<ModuleInfo>, b: Bundle, n: nat) -> bool {
    &&& stops(after(modules, b, n))
    &&& forall|m: nat| m < n ==> !stops(#[trigger] after(modules, b, m))
}

/// The state in which a bundle stops.
pub open spec fn ran(modules: Seq<ModuleInfo>, b: Bundle) -> Bundle {
    after(modules, b, choose|n: nat| stops_after(modules, b, n))
}

/// Whether a bundle can be made: every symbol was emitted, and there was nothing
/// that cannot be dealt with.
pub open spec fn is_supported(modules: Seq<ModuleInfo>, b: Bundle) -> bool {
    !ran(modules, b).unsupported && !ran(modules, b).out.overflown
}

pub proof fn lemma_ran(modules: Seq<ModuleInfo>, b: Bundle, n: nat)
    requires
        stops_after(modules, b, n),
    ensures
        ran(modules, b) == after(modules, b, n),
{
    let m = choose|m: nat| stops_after(modules, b, m);
    if m < n {
        assert(!stops(after(modules, b, m)));
    }
    if n < m {
        assert(!stops(after(modules, b, n)));
    }
}

/// Whether every symbol that was met has a name.
spec fn all_named(b: Bundle) -> bool {
    forall|k: (usize, usize)| #[trigger]
        b.analyzed.contains(k) ==> has_key(b.names.assigned, k)
}

/// Whether every module that is referred to as a whole has a namespace.
spec fn all_have_namespaces(b: Bundle) -> bool {
    forall|m: usize| #[trigger]
        has_key(b.to_namespace, m) ==> super::idents::namespace_of(b.out.infos, m) is Some
}

impl<'a> DtsBundler<'a> {
    /// Emits symbols until none is left, or there is something that cannot be dealt
    /// with.
    fn run(&mut self)
        requires
            old(self).wf(),
            modules_wf(old(self).modules()),
            bundle_ok(old(self).modules(), old(self)@),
        ensures
            final(self).wf(),
            final(self).root_symbol == old(self).root_symbol,
            final(self)@ == ran(old(self).modules(), old(self)@),
            bundle_ok(old(self).modules(), final(self)@),
            stops(final(self)@),
    {
        let ghost modules = self.modules();
        let ghost start = self@;
        let ghost mut n: nat = 0;
        let count: usize = self.root_symbol.modules.len();
        let ghost all = keys_upto(modules, modules.len());
        proof {
            lemma_analyzed_bounded(modules, self@);
        }
        while self.pending_symbols.len() > 0 && !self.unsupported && !self.output.overflown
            invariant
                self.wf(),
                self.root_symbol == old(self).root_symbol,
                modules == self.modules(),
                modules.len() == count,
                modules_wf(modules),
                bundle_ok(modules, self@),
                self@ == after(modules, start, n),
                all == keys_upto(modules, modules.len()),
                forall|m: nat| m < n ==> !stops(#[trigger] after(modules, start, m)),
                self@.analyzed.finite(),
                self@.analyzed.len() <= all.len(),
            decreases all.len() - self@.analyzed.len(), self.pending_symbols@.len(),
        {
            let ghost before = self@;
            proof {
                lemma_stepped(modules, before);
                assert(before.pending.len() == self.pending_symbols@.len());
            }
            self.step();
            proof {
                n = n + 1;
                lemma_analyzed_bounded(modules, self@);
                vstd::set_lib::lemma_len_subset(before.analyzed, self@.analyzed);
                if self@.analyzed.len() == before.analyzed.len() {
                    vstd::set_lib::lemma_subset_equality(before.analyzed, self@.analyzed);
                }
                assert(self@.pending.len() == self.pending_symbols@.len());
            }
        }
        proof {
            assert(self@.pending.len() == self.pending_symbols@.len());
            assert(stops_after(modules, start, n));
            lemma_ran(modules, start, n);
        }
    }

    /// Makes namespaces for the modules that others refer to as a whole.
    fn make_namespaces(&mut self)
        requires
            old(self).wf(),
            modules_wf(old(self).modules()),
            bundle_ok(old(self).modules(), old(self)@),
        ensures
            final(self).wf(),
            final(self).root_symbol == old(self).root_symbol,
            final(self)@ == finished(old(self).modules(), old(self)@),
    {
        let ghost modules = self.modules();
        let ghost start = self@;
        let root_symbol: &'a RootSymbol = self.root_symbol;
        let mut i: usize = 0;
        assert(self@ == namespaces_made(modules, start, 0));
        while i < self.to_namespace.len()
            invariant
                self.wf(),
                self.root_symbol == old(self).root_symbol,
                self.root_symbol == root_symbol,
                modules == root_symbol.modules@,
                modules_wf(modules),
                bundle_ok(modules, start),
                i <= self.to_namespace@.len(),
                start.to_namespace == modules_of(self.to_namespace@),
                self@ == namespaces_made(modules, start, i as nat),
            decreases self.to_namespace@.len() - i,
        {
            proof {
                lemma_namespaces_made(modules, start, i as nat);
            }
            let ghost before = self@;
            let module_id: usize = self.to_namespace.key_at(i).0;
            assert(start.to_namespace[i as int].0 == module_id);
            assert(module_id < modules.len());
            let module: &ModuleInfo = &root_symbol.modules[module_id];
            assert(modules[module_id as int].module_symbol
                < modules[module_id as int].symbols@.len());
            let id = UniqueSymbolId { module_id, symbol_id: module.module_symbol };
            let name: String = self.top_level_symbols.ensure_top_level_name(
                id,
                &module.symbols[module.module_symbol],
            );
            assert(self@ =~= (Bundle { names: self@.names, ..before }));
            self.make_namespace(module_id, name);
            proof {
                assert(self@ =~= namespaces_made(modules, start, (i + 1) as nat));
                lemma_namespaces_made(modules, start, (i + 1) as nat);
                assert(modules_of(self.to_namespace@) == start.to_namespace);
                assert(modules_of(self.to_namespace@).len() == self.to_namespace@.len());
            }
            i = i + 1;
        }
        proof {
            assert(modules_of(self.to_namespace@).len() == self.to_namespace@.len());
        }
    }

    /// The items of the module at a place.
    fn module_items(&self, i: usize) -> (r: Vec<Node>)
        requires
            self.wf(),
            i < self@.out.infos.len(),
            infos_ok(self.modules(), self@.analyzed, self@.to_namespace, self@.out.infos),
            all_named(self@),
            all_have_namespaces(self@),
        ensures
            trees(r@) == module_items(
                self@.names,
                self@.out.infos,
                self@.out.infos[i as int].0,
                self@.out.infos[i as int].1,
            ),
    {
        broadcast use group_trees;

        let ghost b = self@;
        let module_id: ModuleId = self.output.module_emit_infos.module_at(i);
        let info: &ModuleEmitInfo = self.output.module_emit_infos.info_at(i);
        let ghost e = b.out.infos[i as int].1;
        assert(info_ok(b.analyzed, b.to_namespace, module_id.0, e));
        let transformer = IdentTransformer {
            ident_mapping: &info.ident_mapping,
            in_namespace: info.namespace_info.is_some(),
            top_level_symbols: &self.top_level_symbols,
            module_emit_infos: &self.output.module_emit_infos,
        };
        assert(all_assigned(e.mapping, b.names.assigned)) by {
            assert forall|j: int| 0 <= j < e.mapping.len() implies has_key(
                b.names.assigned,
                key_of((#[trigger] e.mapping[j]).1),
            ) by {
                assert(b.analyzed.contains(key_of(e.mapping[j].1)));
            }
        }
        assert(transformer@ == renaming_of(b.names, b.out.infos, e));
        let mut items: Vec<Node> = transformer.visit_all(&info.items);
        match &info.namespace_info {
            Some(namespace) => {
                let ghost first = trees(items@);
                let ghost exports = exports_of(namespace.exports@);
                let mut specifiers: Vec<Node> = Vec::new();
                let mut j: usize = 0;
                assert(trees(items@) =~= first + other_exports(
                    b.names,
                    b.out.infos,
                    module_id.0,
                    exports,
                    0,
                ));
                while j < namespace.exports.len()
                    invariant
                        self.wf(),
                        b == self@,
                        all_named(b),
                        all_have_namespaces(b),
                        e.namespace == Some(namespace@),
                        info_ok(b.analyzed, b.to_namespace, module_id.0, e),
                        exports == exports_of(namespace.exports@),
                        j <= namespace.exports@.len(),
                        trees(items@) == first + other_exports(
                            b.names,
                            b.out.infos,
                            module_id.0,
                            exports,
                            j as nat,
                        ),
                        trees(specifiers@) == own_specifiers(
                            b.names,
                            module_id.0,
                            exports,
                            j as nat,
                        ),
                    decreases namespace.exports@.len() - j,
                {
                    broadcast use group_trees;

                    let export_name: &String = &namespace.exports[j].0;
                    let id: UniqueSymbolId = namespace.exports[j].1;
                    assert(exports[j as int] == (export_name@, id));
                    proof {
                        let ns = e.namespace.unwrap();
                        assert(ns.exports == exports);
                        assert(b.analyzed.contains(key_of(ns.exports[j as int].1)));
                    }
                    let name: String = self.top_level_symbols.assigned_name(id).clone();
                    if id.module_id == module_id.0 {
                        // only needs an export
                        let exported: Option<String> = if same_text(
                            name.as_str(),
                            export_name.as_str(),
                        ) {
                            None
                        } else {
                            Some(export_name.clone())
                        };
                        specifiers.push(
                            placed(Role::Specifier, export_specifier(name, exported)),
                        );
                    } else {
                        // needs an import and an export
                        assert(has_key(b.to_namespace, id.module_id));
                        assert(super::idents::namespace_of(b.out.infos, id.module_id) is Some);
                        let dep: &ModuleEmitInfo = self.output.module_emit_infos.get(
                            ModuleId(id.module_id),
                        ).unwrap();
                        let dep_name: String = match &dep.namespace_info {
                            Some(dep_namespace) => dep_namespace.name.clone(),
                            None => String::new(),
                        };
                        let item: Node = import_equals(
                            ident(export_name.clone()),
                            qualified_name(dep_name, name),
                            true,
                        );
                        items.push(placed(Role::Item, item));
                    }
                    j = j + 1;
                    assert(trees(items@) =~= first + other_exports(
                        b.names,
                        b.out.infos,
                        module_id.0,
                        exports,
                        j as nat,
                    ));
                }
                assert(trees(specifiers@).len() == specifiers@.len());
                if specifiers.len() > 0 {
                    items.push(placed(Role::Item, make(Kind::ExportNamed, specifiers)));
                }
                one(placed(Role::Item, make_namespace(namespace.name.clone(), items)))
            },
            None => items,
        }
    }

    /// The items of the bundle.
    fn assemble(&self) -> (r: Vec<Node>)
        requires
            self.wf(),
            infos_ok(self.modules(), self@.analyzed, self@.to_namespace, self@.out.infos),
            all_named(self@),
            all_have_namespaces(self@),
        ensures
            trees(r@) == bundle_items(self@),
    {
        broadcast use group_trees;

        let ghost b = self@;
        let mut r: Vec<Node> = Vec::new();
        let mut i: usize = 0;
        while i < self.output.module_emit_infos.len()
            invariant
                self.wf(),
                b == self@,
                i <= b.out.infos.len(),
                infos_ok(self.modules(), b.analyzed, b.to_namespace, b.out.infos),
                all_named(b),
                all_have_namespaces(b),
                trees(r@) == items_upto(b.names, b.out.infos, i as nat),
            decreases b.out.infos.len() - i,
        {
            broadcast use group_trees;

            let mut items: Vec<Node> = self.module_items(i);
            r.append(&mut items);
            i = i + 1;
        }
        if self.queued_named_exports.len() > 0 {
            let ghost all = queued_specifiers(b.queued);
            let mut specifiers: Vec<Node> = Vec::new();
            let mut j: usize = 0;
            assert(trees(specifiers@) =~= all.take(0));
            while j < self.queued_named_exports.len()
                invariant
                    b == self@,
                    all == queued_specifiers(b.queued),
                    j <= self.queued_named_exports@.len(),
                    trees(specifiers@) == all.take(j as int),
                decreases self.queued_named_exports@.len() - j,
            {
                broadcast use group_trees;

                let name: String = self.queued_named_exports[j].0.clone();
                let export_name: String = self.queued_named_exports[j].1.clone();
                assert(b.queued[j as int] == (name@, export_name@));
                let exported: Option<String> = if same_text(name.as_str(), export_name.as_str()) {
                    None
                } else {
                    Some(export_name)
                };
                specifiers.push(placed(Role::Specifier, export_specifier(name, exported)));
                j = j + 1;
                assert(trees(specifiers@) =~= all.take(j as int));
            }
            assert(trees(specifiers@) =~= all);
            r.push(placed(Role::Item, make(Kind::ExportNamed, specifiers)));
        }
        r
    }

    /// Bundles, or tells that something cannot be dealt with.
    pub fn try_bundle(&mut self) -> (r: Option<Node>)
        requires
            old(self).wf(),
            modules_wf(old(self).modules()),
            bundle_ok(old(self).modules(), old(self)@),
        ensures
            final(self).wf(),
            final(self).root_symbol == old(self).root_symbol,
            r is Some <==> is_supported(old(self).modules(), old(self)@),
            r matches Some(module) ==> {
                let done = finished(
                    old(self).modules(),
                    ran(old(self).modules(), old(self)@),
                );
                &&& final(self)@ == emptied(done)
                &&& final(self)@.pending.len() == 0
                &&& names_wf(done.names)
                &&& module@ == made(Kind::Module, bundle_items(done))
                &&& comments_ok(
                    old(self).modules(),
                    done.out.starts,
                    final(self).output.global_comments,
                )
            },
    {
        let ghost modules = self.modules();
        self.run();
        let ghost b = self@;
        if self.unsupported || self.output.overflown {
            return None;
        }
        self.make_namespaces();
        proof {
            let done = self@;
            lemma_namespaces_made(modules, b, b.to_namespace.len());
            assert forall|k: (usize, usize)| #[trigger] done.analyzed.contains(k) implies has_key(
                done.names.assigned,
                k,
            ) by {
                assert(b.analyzed.contains(k));
                assert(!is_pending(b.pending, k));
            }
            assert forall|m: usize| #[trigger] has_key(
                done.to_namespace,
                m,
            ) implies super::idents::namespace_of(done.out.infos, m) is Some by {
                lemma_key_place(b.to_namespace, m);
                let p = key_place(b.to_namespace, m);
                assert(b.to_namespace[p].0 == m);
            }
        }
        let items: Vec<Node> = self.assemble();
        let ghost done = self@;
        self.queued_named_exports = Vec::new();
        self.output.module_emit_infos.clear_items();
        proof {
            self.top_level_symbols.lemma_wf();
            assert(self@.queued =~= Seq::<(Seq<char>, Seq<char>)>::empty());
            assert(self@.out =~= emptied(done).out);
            assert(self@ =~= emptied(done));
        }
        Some(make(Kind::Module, items))
    }

    /// Bundles.
    pub fn bundle(&mut self) -> (r: Node)
        requires
            old(self).wf(),
            modules_wf(old(self).modules()),
            bundle_ok(old(self).modules(), old(self)@),
            is_supported(old(self).modules(), old(self)@),
        ensures
            final(self).wf(),
            final(self).root_symbol == old(self).root_symbol,
            ({
                let done = finished(
                    old(self).modules(),
                    ran(old(self).modules(), old(self)@),
                );
                &&& final(self)@ == emptied(done)
                &&& final(self)@.pending.len() == 0
                &&& names_wf(done.names)
                &&& r@ == made(Kind::Module, bundle_items(done))
                &&& comments_ok(
                    old(self).modules(),
                    done.out.starts,
                    final(self).output.global_comments,
                )
            }),
    {
        self.try_bundle().unwrap()
    }
}

/// The symbols among what the first `n` exports stand for, with the names of the
/// exports.
pub open spec fn pending_upto(targets: Seq<(Seq<char>, Target)>, n: nat) -> Seq<
    (Option<Seq<char>>, UniqueSymbolId),
>
    decreases n,
{
    if n == 0 {
        Seq::empty()
    } else {
        match targets[n - 1].1 {
            Target::Symbol(id) => pending_upto(targets, (n - 1) as nat).push(
                (Some(targets[n - 1].0), id),
            ),
            Target::Remote { .. } => pending_upto(targets, (n - 1) as nat),
        }
    }
}

/// A bundle before any symbol was emitted: those that are exported are still to be.
pub open spec fn initial(targets: Seq<(Seq<char>, Target)>) -> Bundle {
    let pending = pending_upto(targets, targets.len());
    Bundle {
        out: Out { infos: Seq::empty(), starts: Seq::empty(), next_pos: 1, overflown: false },
        names: Names { taken: Set::empty(), counts: Seq::empty(), assigned: Seq::empty() },
        pending,
        analyzed: Set::new(|k: (usize, usize)| is_pending(pending, k)),
        emitted: Set::empty(),
        queued: Seq::empty(),
        to_namespace: Seq::empty(),
        notes: Seq::empty(),
        unsupported: false,
    }
}

/// Whether every exported symbol is there.
pub open spec fn targets_valid(
    modules: Seq<ModuleInfo>,
    targets: Seq<(Seq<char>, Target)>,
) -> bool {
    forall|i: int|
        0 <= i < targets.len() ==> match (#[trigger] targets[i]).1 {
            Target::Symbol(id) => is_symbol(modules, id),
            Target::Remote { .. } => true,
        }
}

proof fn lemma_pending_upto(
    modules: Seq<ModuleInfo>,
    targets: Seq<(Seq<char>, Target)>,
    n: nat,
)
    requires
        targets_valid(modules, targets),
        n <= targets.len(),
    ensures
        forall|i: int|
            0 <= i < pending_upto(targets, n).len() ==> is_symbol(
                modules,
                (#[trigger] pending_upto(targets, n)[i]).1,
            ),
    decreases n,
{
    if n > 0 {
        lemma_pending_upto(modules, targets, (n - 1) as nat);
        let before = pending_upto(targets, (n - 1) as nat);
        let more = pending_upto(targets, n);
        assert forall|i: int| 0 <= i < more.len() implies is_symbol(
            modules,
            (#[trigger] more[i]).1,
        ) by {
            if i < before.len() {
                assert(more[i] == before[i]);
            } else {
                assert(targets[n - 1].1 is Symbol);
            }
        }
    }
}

/// A bundle of what is exported keeps what every step keeps.
pub proof fn lemma_initial(modules: Seq<ModuleInfo>, targets: Seq<(Seq<char>, Target)>)
    requires
        targets_valid(modules, targets),
    ensures
        bundle_ok(modules, initial(targets)),
{
    let b = initial(targets);
    lemma_pending_upto(modules, targets, targets.len());
    assert forall|i: int| 0 <= i < b.pending.len() implies is_symbol(
        modules,
        (#[trigger] b.pending[i]).1,
    ) && b.analyzed.contains(key_of(b.pending[i].1)) by {
        assert(is_pending(b.pending, key_of(b.pending[i].1)));
    }
    assert forall|k: (usize, usize)| #[trigger] b.analyzed.contains(k) implies is_symbol(
        modules,
        symbol_of_key(k),
    ) by {
        let i = choose|i: int| 0 <= i < b.pending.len() && key_of((#[trigger] b.pending[i]).1) == k;
        assert(symbol_of_key(k) == b.pending[i].1);
    }
}

impl<'a> DtsBundler<'a> {
    /// A bundle of what the exports stand for. What they have of modules on the web
    /// is left out.
    pub fn new(root_symbol: &'a RootSymbol, exports: &TextMap<SymbolIdOrRemoteDep>) -> (r:
        DtsBundler<'a>)
        requires
            exports.wf(),
        ensures
            r.wf(),
            r.root_symbol == root_symbol,
            r@ == initial(targets_of(exports@)),
    {
        let ghost targets = targets_of(exports@);
        let mut pending_symbols: VecDeque<(Option<String>, UniqueSymbolId)> = VecDeque::new();
        let mut analyzed_symbols: PairMap<()> = PairMap::new();
        let mut i: usize = 0;
        assert(pending_of(pending_symbols@) =~= Seq::empty());
        assert(keys_of(analyzed_symbols@) =~= Set::empty());
        while i < exports.len()
            invariant
                exports.wf(),
                targets == targets_of(exports@),
                i <= exports@.len(),
                analyzed_symbols.wf(),
                pending_of(pending_symbols@) == pending_upto(targets, i as nat),
                forall|k: (usize, usize)| #[trigger]
                    keys_of(analyzed_symbols@).contains(k) <==> is_pending(
                        pending_upto(targets, i as nat),
                        k,
                    ),
            decreases exports@.len() - i,
        {
            assert(targets[i as int] == (exports@[i as int].0, exports@[i as int].1@));
            let ghost before = pending_upto(targets, i as nat);
            let ghost more = pending_upto(targets, (i + 1) as nat);
            match exports.value_at(i) {
                SymbolIdOrRemoteDep::Symbol(id) => {
                    let ghost keys = keys_of(analyzed_symbols@);
                    proof {
                        analyzed_symbols.lemma_distinct();
                        lemma_keys_insert(analyzed_symbols@, (id.module_id, id.symbol_id));
                    }
                    let name: String = exports.key_at(i).clone();
                    pending_symbols.push_back((Some(name), *id));
                    analyzed_symbols.insert((id.module_id, id.symbol_id), ());
                    proof {
                        assert(pending_of(pending_symbols@) =~= more);
                        assert forall|k: (usize, usize)| #[trigger]
                            keys_of(analyzed_symbols@).contains(k) <==> is_pending(more, k) by {
                            assert(keys.contains(k) <==> is_pending(before, k));
                            if is_pending(before, k) {
                                let j = choose|j: int|
                                    0 <= j < before.len() && key_of((#[trigger] before[j]).1) == k;
                                assert(key_of(more[j].1) == k);
                            }
                            if k == key_of(*id) {
                                assert(key_of(more[before.len() as int].1) == k);
                            }
                            if is_pending(more, k) && k != key_of(*id) {
                                let j = choose|j: int|
                                    0 <= j < more.len() && key_of((#[trigger] more[j]).1) == k;
                                assert(key_of(before[j].1) == k);
                            }
                        }
                    }
                },
                SymbolIdOrRemoteDep::RemoteDep(_) => {},
            }
            i = i + 1;
        }
        let r = DtsBundler {
            root_symbol,
            output: OutputContainer::new(),
            pending_symbols,
            analyzed_symbols,
            emitted_symbols: PairMap::new(),
            top_level_symbols: TopLevelSymbols::new(),
            queued_named_exports: Vec::new(),
            to_namespace: PairMap::new(),
            notes: Vec::new(),
            unsupported: false,
        };
        proof {
            let b = initial(targets);
            assert(r@.analyzed =~= b.analyzed);
            assert(r@.emitted =~= b.emitted);
            assert(r@.queued =~= b.queued);
            assert(r@.to_namespace =~= b.to_namespace);
            assert(r@.notes =~= b.notes);
            assert(r@ =~= b);
            assert forall|pos: int| #[trigger]
                crate::comments::comments_at(r.output.global_comments.leading@, pos)
                    == super::output::comments_upto(
                    root_symbol.modules@,
                    r.output@.starts,
                    r.output@.starts.len(),
                    pos,
                ) by {}
        }
        r
    }
}

/// A bundle: its syntax, its comments, where the source files start to which its
/// positions refer, and what is to be said of them.
#[derive(Debug)]
pub struct BundledDts {
    pub module: Node,
    pub comments: Comments,
    pub start_positions: Vec<(usize, u32)>,
    pub notes: Vec<Note>,
}

/// Bundles the declarations of what a module exports, or tells that something cannot
/// be dealt with.
pub fn pack_dts(root_symbol: &RootSymbol, exports: Vec<NamedExport>) -> (r: Option<BundledDts>)
    requires
        modules_wf(root_symbol.modules@),
        exports_supported(exports@),
        targets_valid(root_symbol.modules@, targets_upto(exports@, exports@.len())),
    ensures
        ({
            let modules = root_symbol.modules@;
            let start = initial(targets_upto(exports@, exports@.len()));
            let done = finished(modules, ran(modules, start));
            &&& r is Some <==> is_supported(modules, start)
            &&& r matches Some(bundled) ==> {
                &&& names_wf(done.names)
                &&& bundled.module@ == made(Kind::Module, bundle_items(done))
                &&& bundled.start_positions@ == done.out.starts
                &&& bundled.notes@ == done.notes
                &&& comments_ok(modules, done.out.starts, bundled.comments)
            }
        }),
{
    let exports: TextMap<SymbolIdOrRemoteDep> = analyze_exports(exports);
    proof {
        lemma_initial(root_symbol.modules@, targets_of(exports@));
    }
    let mut bundler: DtsBundler = DtsBundler::new(root_symbol, &exports);
    match bundler.try_bundle() {
        Some(module) => {
            let start_positions: Vec<(usize, u32)> = bundler.output.start_positions();
            let DtsBundler { output, notes, .. } = bundler;
            Some(
                BundledDts {
                    module,
                    comments: output.global_comments,
                    start_positions,
                    notes,
                },
            )
        },
        None => None,
    }
}

}
