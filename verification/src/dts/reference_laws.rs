//! That no name in a bundle refers to what is not there.

use vstd::prelude::*;

use super::analyzer::{Target, UniqueSymbolId};
use super::bundle::{
    after, bundle_items, decl_added, decl_emitted, decls_emitted, exports_met, finished,
    mapping_met, met, namespaces_made, stepped, with_namespace, Bundle, Emission, Emitting,
};
use super::bundler::{initial, ran, stops_after};
use super::idents::{Mapped, Renaming};
use super::idents_laws::{
    all_scoped, is_consistent, is_renamed, law_no_mapped_name_is_left, law_references_are_mapped,
    namespace_text, outside_keys, stands_among, stands_for_none,
};
use super::names::{key_of, with_top_level_name, Names};
use super::output::{
    created, emitted_of, item_added, lemma_created, lemma_with_emitted, started, with_emitted,
    Emitted, Out,
};
use super::root_symbol::{symbol_at, ModuleInfo, SymbolDecl};
use crate::collections::{distinct_keys, has_key, key_place, lemma_key_place, with_entry};
use crate::paths::{is_path, node_at};
use crate::syntax::{id_of, Kind, Span, Tree};

verus! {

/// Whether each identifier of a mapping stands once, and was resolved in a scope.
pub open spec fn mapping_fits(mapping: Seq<((Seq<char>, u32), UniqueSymbolId)>) -> bool {
    distinct_keys(mapping) && all_scoped(mapping)
}

/// Whether this holds of every module that came, and each came once.
pub open spec fn infos_fit(s: Seq<(usize, Emitted)>) -> bool {
    &&& distinct_keys(s)
    &&& forall|i: int| 0 <= i < s.len() ==> mapping_fits((#[trigger] s[i]).1.mapping)
}

/// Whether this holds of a bundle, and each symbol has one name.
pub open spec fn bundle_fits(b: Bundle) -> bool {
    infos_fit(b.out.infos) && distinct_keys(b.names.assigned)
}

proof fn lemma_fit_created(s: Seq<(usize, Emitted)>, module_id: usize)
    requires
        infos_fit(s),
    ensures
        infos_fit(created(s, module_id)),
        has_key(created(s, module_id), module_id),
        mapping_fits(emitted_of(created(s, module_id), module_id).mapping),
{
    let after = created(s, module_id);
    lemma_created(s, module_id, module_id);
    assert forall|i: int| 0 <= i < after.len() implies mapping_fits(
        (#[trigger] after[i]).1.mapping,
    ) by {
        if i < s.len() {
            assert(after[i] == s[i]);
        }
    }
    lemma_key_place(after, module_id);
}

proof fn lemma_fit_with(s: Seq<(usize, Emitted)>, module_id: usize, e: Emitted)
    requires
        infos_fit(s),
        has_key(s, module_id),
        mapping_fits(e.mapping),
    ensures
        infos_fit(with_emitted(s, module_id, e)),
{
    let after = with_emitted(s, module_id, e);
    let p = key_place(s, module_id);
    lemma_key_place(s, module_id);
    assert forall|i: int, j: int| 0 <= i < j < after.len() implies (#[trigger] after[i]).0 != (
    #[trigger] after[j]).0 by {
        assert(s[i].0 != s[j].0);
    }
    assert forall|i: int| 0 <= i < after.len() implies mapping_fits(
        (#[trigger] after[i]).1.mapping,
    ) by {
        if i != p {
            assert(after[i] == s[i]);
        }
    }
}

proof fn lemma_fit_of(s: Seq<(usize, Emitted)>, module_id: usize)
    requires
        infos_fit(s),
        has_key(s, module_id),
    ensures
        mapping_fits(emitted_of(s, module_id).mapping),
{
    lemma_key_place(s, module_id);
}

proof fn lemma_fit_item(o: Out, module_id: usize, module: ModuleInfo, item: Tree)
    requires
        infos_fit(o.infos),
    ensures
        infos_fit(item_added(o, module_id, module, item).infos),
{
    let middle = started(o, module_id, module);
    assert(middle.infos == o.infos);
    lemma_fit_created(o.infos, module_id);
    let infos = created(o.infos, module_id);
    let e = emitted_of(infos, module_id);
    let start = super::output::start_of(middle, module_id) as nat;
    lemma_fit_with(
        infos,
        module_id,
        Emitted { items: e.items.push(crate::helpers::moved(item, start)), ..e },
    );
}

proof fn lemma_fit_namespace(s: Seq<(usize, Emitted)>, module_id: usize, name: Seq<char>)
    requires
        infos_fit(s),
    ensures
        infos_fit(with_namespace(s, module_id, name)),
        has_key(with_namespace(s, module_id, name), module_id),
{
    lemma_fit_created(s, module_id);
    let after = created(s, module_id);
    let e = emitted_of(after, module_id);
    let changed = Emitted {
        namespace: Some(super::output::Namespace { name, exports: Seq::empty() }),
        ..e
    };
    lemma_fit_with(after, module_id, changed);
    lemma_with_emitted(after, module_id, changed, module_id);
}

proof fn lemma_fit_exports(modules: Seq<ModuleInfo>, module_id: usize, n: nat, b: Bundle)
    requires
        infos_fit(b.out.infos),
        has_key(b.out.infos, module_id),
    ensures
        infos_fit(exports_met(modules, module_id, n, b).out.infos),
        has_key(exports_met(modules, module_id, n, b).out.infos, module_id),
        exports_met(modules, module_id, n, b).names == b.names,
    decreases n,
{
    if n > 0 {
        lemma_fit_exports(modules, module_id, (n - 1) as nat, b);
        let before = exports_met(modules, module_id, (n - 1) as nat, b);
        let export = modules[module_id as int].exports@[n - 1];
        match export.definition {
            Some(id) => {
                let infos = met(before, id).out.infos;
                lemma_fit_of(infos, module_id);
                let done = exports_met(modules, module_id, n, b).out.infos;
                let e = emitted_of(infos, module_id);
                let namespace = e.namespace.unwrap();
                let changed = Emitted {
                    namespace: Some(
                        super::output::Namespace {
                            exports: namespace.exports.push((export.name@, id)),
                            ..namespace
                        },
                    ),
                    ..e
                };
                lemma_fit_with(infos, module_id, changed);
                lemma_with_emitted(infos, module_id, changed, module_id);
            },
            None => {},
        }
    }
}

/// What holds while the declarations of a symbol are emitted.
spec fn emitting_fits(modules: Seq<ModuleInfo>, e: Emission, s: Emitting) -> bool {
    &&& bundle_fits(s.b)
    &&& mapping_fits(s.m.mapping)
    &&& is_consistent(s.m.mapping, symbol_at(modules, e.id))
}

proof fn lemma_fit_decl(
    modules: Seq<ModuleInfo>,
    e: Emission,
    s: Emitting,
    decl: Tree,
    span: Span,
)
    requires
        emitting_fits(modules, e, s),
    ensures
        emitting_fits(modules, e, decl_added(modules, e, s, decl, span)),
{
    if !(decl.kind == Kind::VarDecl && !super::bundle::is_single_var(decl)) {
        law_references_are_mapped(modules, e, s, decl, span, (Seq::empty(), 0));
        let module = modules[e.id.module_id as int];
        let tree = super::transform::visited(
            decl,
            super::transform::Mode::Plain,
            super::bundle::bundle_env(module),
            super::transformer::fresh(),
        ).trees[0];
        lemma_fit_item(
            s.b.out,
            e.id.module_id,
            module,
            super::output::decl_item(tree, e.name, span, e.export_name == Some(e.name)),
        );
    }
}

proof fn lemma_fit_emitted(modules: Seq<ModuleInfo>, e: Emission, s: Emitting, decl: SymbolDecl)
    requires
        emitting_fits(modules, e, s),
    ensures
        emitting_fits(modules, e, decl_emitted(modules, e, s, decl)),
{
    if !decl.has_overloads && decl.is_definition && decl.node is Some {
        let node = decl.node.unwrap();
        let t = node.tree@;
        let inner = crate::syntax::child(t, crate::syntax::Role::Decl);
        if t.kind == Kind::Module {
            let id = e.id.module_id;
            lemma_fit_namespace(s.b.out.infos, id, e.name);
            let infos = with_namespace(s.b.out.infos, id, e.name);
            let middle = Bundle { out: Out { infos, ..s.b.out }, ..s.b };
            lemma_fit_exports(modules, id, modules[id as int].exports@.len(), middle);
        } else if t.kind == Kind::ExportDecl {
            lemma_fit_decl(modules, e, s, inner, t.span);
        } else if t.kind == Kind::ExportDefaultDecl {
            lemma_fit_decl(
                modules,
                e,
                s,
                super::bundle::default_decl(
                    Kind::ClassDecl,
                    e.name,
                    crate::syntax::Role::Class,
                    crate::syntax::child(inner, crate::syntax::Role::Class),
                ),
                t.span,
            );
            lemma_fit_decl(
                modules,
                e,
                s,
                super::bundle::default_decl(
                    Kind::FnDecl,
                    e.name,
                    crate::syntax::Role::Function,
                    crate::syntax::child(inner, crate::syntax::Role::Function),
                ),
                t.span,
            );
            lemma_fit_decl(modules, e, s, inner, t.span);
        } else if t.kind == Kind::ExportDefaultExpr {
            lemma_fit_decl(
                modules,
                e,
                s,
                super::bundle::default_const(
                    e.name,
                    crate::syntax::child(t, crate::syntax::Role::Expr).kind,
                ),
                t.span,
            );
        } else if super::bundle::is_plain_decl(t.kind) {
            lemma_fit_decl(modules, e, s, t, t.span);
        } else if t.kind == Kind::VarDecl && node.declarator is Some {
            lemma_fit_decl(
                modules,
                e,
                s,
                super::bundle::with_declarator(t, node.declarator.unwrap() as int),
                t.span,
            );
        }
    }
}

proof fn lemma_fit_decls(modules: Seq<ModuleInfo>, e: Emission, s: Emitting, n: nat)
    requires
        emitting_fits(modules, e, s),
    ensures
        emitting_fits(modules, e, decls_emitted(modules, e, s, n)),
    decreases n,
{
    if n > 0 {
        lemma_fit_decls(modules, e, s, (n - 1) as nat);
        lemma_fit_emitted(
            modules,
            e,
            decls_emitted(modules, e, s, (n - 1) as nat),
            symbol_at(modules, e.id).decls@[n - 1],
        );
    }
}

proof fn lemma_fit_mapping(
    b: Bundle,
    module_id: usize,
    mapping: Seq<((Seq<char>, u32), UniqueSymbolId)>,
    n: nat,
)
    requires
        n <= mapping.len(),
        infos_fit(b.out.infos),
        all_scoped(mapping),
    ensures
        infos_fit(mapping_met(b, module_id, mapping, n).out.infos),
        mapping_met(b, module_id, mapping, n).names == b.names,
    decreases n,
{
    if n > 0 {
        lemma_fit_mapping(b, module_id, mapping, (n - 1) as nat);
        let before = mapping_met(b, module_id, mapping, (n - 1) as nat);
        let after = met(before, mapping[n - 1].1);
        lemma_fit_created(after.out.infos, module_id);
        let infos = created(after.out.infos, module_id);
        let e = emitted_of(infos, module_id);
        let id = mapping[n - 1].0;
        let noted = with_entry(e.mapping, id, mapping[n - 1].1);
        lemma_key_place(e.mapping, id);
        assert(mapping_fits(noted)) by {
            assert forall|i: int, j: int| 0 <= i < j < noted.len() implies (
            #[trigger] noted[i]).0 != (#[trigger] noted[j]).0 by {
                if i < e.mapping.len() && j < e.mapping.len() {
                    assert(e.mapping[i].0 != e.mapping[j].0);
                } else if i < e.mapping.len() {
                    assert(e.mapping[i].0 != id);
                }
            }
            assert forall|i: int| 0 <= i < noted.len() implies (#[trigger] noted[i]).0.1 > 0 by {
                if i < e.mapping.len() {
                    assert(e.mapping[i].0.1 > 0);
                }
                assert(mapping[n - 1].0.1 > 0);
            }
        }
        lemma_fit_with(infos, module_id, Emitted { mapping: noted, ..e });
    }
}

proof fn lemma_fit_names(n: Names, id: UniqueSymbolId, own: Seq<char>)
    requires
        distinct_keys(n.assigned),
    ensures
        distinct_keys(with_top_level_name(n, id, own).assigned),
{
    let after = with_top_level_name(n, id, own).assigned;
    lemma_key_place(n.assigned, key_of(id));
    if !has_key(n.assigned, key_of(id)) {
        assert forall|i: int, j: int| 0 <= i < j < after.len() implies (#[trigger] after[i]).0 != (
        #[trigger] after[j]).0 by {
            assert(after[i] == n.assigned[i]);
            if j < n.assigned.len() {
                assert(after[j] == n.assigned[j]);
            }
        }
    }
}

proof fn lemma_fit_step(modules: Seq<ModuleInfo>, b: Bundle)
    requires
        bundle_fits(b),
    ensures
        bundle_fits(stepped(modules, b)),
{
    if b.pending.len() > 0 {
        let (export_name, id) = b.pending[0];
        let symbol = symbol_at(modules, id);
        let own = super::names::own_name(symbol, id.module_id);
        let e = Emission {
            id,
            name: super::names::top_level_name(b.names, id, own),
            export_name,
        };
        let named = Bundle {
            names: with_top_level_name(b.names, id, own),
            pending: b.pending.skip(1),
            ..b
        };
        lemma_fit_names(b.names, id, own);
        let s = Emitting {
            b: Bundle {
                emitted: named.emitted.insert(key_of(id)),
                unsupported: named.unsupported || !modules[id.module_id as int].is_esm,
                ..named
            },
            m: Mapped { mapping: Seq::empty(), unsupported: false },
        };
        lemma_fit_decls(modules, e, s, symbol.decls@.len());
        let done = decls_emitted(modules, e, s, symbol.decls@.len());
        lemma_fit_mapping(
            Bundle { unsupported: done.b.unsupported || done.m.unsupported, ..done.b },
            id.module_id,
            done.m.mapping,
            done.m.mapping.len(),
        );
    }
}

proof fn lemma_fit_after(modules: Seq<ModuleInfo>, b: Bundle, n: nat)
    requires
        bundle_fits(b),
    ensures
        bundle_fits(after(modules, b, n)),
    decreases n,
{
    if n > 0 {
        lemma_fit_after(modules, b, (n - 1) as nat);
        lemma_fit_step(modules, after(modules, b, (n - 1) as nat));
    }
}

proof fn lemma_fit_namespaces(modules: Seq<ModuleInfo>, b: Bundle, n: nat)
    requires
        bundle_fits(b),
    ensures
        bundle_fits(namespaces_made(modules, b, n)),
    decreases n,
{
    if n > 0 {
        lemma_fit_namespaces(modules, b, (n - 1) as nat);
        let before = namespaces_made(modules, b, (n - 1) as nat);
        let module_id = b.to_namespace[n - 1].0;
        let id = super::root_symbol::module_symbol(modules, module_id);
        let own = super::names::own_name(symbol_at(modules, id), module_id);
        lemma_fit_names(before.names, id, own);
        lemma_fit_namespace(
            before.out.infos,
            module_id,
            super::names::top_level_name(before.names, id, own),
        );
    }
}

/// Whether no name of a type or a namespace in a tree, at any depth outside the keys of
/// properties, is one of a mapping.
pub open spec fn is_free_of(
    m: Tree,
    mapping: Seq<((Seq<char>, u32), UniqueSymbolId)>,
) -> bool {
    forall|path: Seq<int>|
        #![trigger outside_keys(m, path)]
        is_path(m, path) && outside_keys(m, path) && node_at(m, path).kind == Kind::EntityName
            ==> stands_for_none(mapping, id_of(node_at(m, path)))
}

/// In the items of a bundle every name of a type or a namespace that stands for a symbol
/// has become the name at the top level of that symbol, wherever in its declaration it
/// stands, and none is left as it was.
pub proof fn law_no_mapped_name_is_left_in_the_bundle(
    modules: Seq<ModuleInfo>,
    targets: Seq<(Seq<char>, Target)>,
    i: int,
    j: int,
)
    requires
        0 <= i < finished(modules, ran(modules, initial(targets))).out.infos.len(),
        0 <= j < finished(modules, ran(modules, initial(targets))).out.infos[i].1.items.len(),
    ensures
        ({
            let b = finished(modules, ran(modules, initial(targets)));
            let e = b.out.infos[i].1;
            let r = Renaming {
                mapping: e.mapping,
                in_namespace: e.namespace is Some,
                assigned: b.names.assigned,
                infos: b.out.infos,
            };
            exists|m: Tree|
                {
                    &&& is_renamed(e.items[j], m, r)
                    &&& is_free_of(m, e.mapping)
                    &&& #[trigger] stands_among(bundle_items(b), m, namespace_text(e))
                }
        }),
{
    let start = initial(targets);
    assert(bundle_fits(start));
    let n = choose|n: nat| stops_after(modules, start, n);
    lemma_fit_after(modules, start, n);
    let done = ran(modules, start);
    lemma_fit_namespaces(modules, done, done.to_namespace.len());
    let b = finished(modules, done);
    let e = b.out.infos[i].1;
    let r = super::bundle::renaming_of(b.names, b.out.infos, e);
    assert(mapping_fits(b.out.infos[i].1.mapping));
    super::idents_laws::lemma_in_bundle(b, i, j);
    let m = super::idents::renamed(e.items[j], r);
    assert forall|path: Seq<int>|
        #![trigger outside_keys(m, path)]
        is_path(m, path) && outside_keys(m, path) && node_at(m, path).kind
            == Kind::EntityName implies stands_for_none(e.mapping, id_of(node_at(m, path))) by {
        law_no_mapped_name_is_left(e.items[j], r, path);
    }
}

}
