//! What every step of a bundle keeps.

use vstd::prelude::*;

use super::analyzer::UniqueSymbolId;
use super::bundle::{
    decl_added, decl_emitted, decls_emitted, export_queued, exports_met, mapping_met, met,
    module_emitted, modules_wf, namespaces_made, stepped, symbol_emitted, with_namespace, Bundle,
    Emission, Emitting,
};
use super::idents::{ident_target, idents, idents_mapped, Mapped};
use super::names::{key_of, own_name, top_level_name, with_top_level_name, Names};
use super::output::{
    created, emitted_of, item_added, lemma_created, lemma_with_emitted, started, with_emitted,
    Emitted, Namespace, Out,
};
use super::root_symbol::{
    has_definition, is_symbol, module_symbol, symbol_at, ModuleInfo, SymbolDecl,
};
use crate::collections::{
    distinct_keys, has_key, key_place, lemma_key_place, lemma_key_place_is, with_entry,
};
use crate::syntax::{Span, Tree};

verus! {

/// A key as a symbol.
pub open spec fn symbol_of_key(k: (usize, usize)) -> UniqueSymbolId {
    UniqueSymbolId { module_id: k.0, symbol_id: k.1 }
}

/// Whether a symbol is still to be emitted.
pub open spec fn is_pending(
    pending: Seq<(Option<Seq<char>>, UniqueSymbolId)>,
    k: (usize, usize),
) -> bool {
    exists|i: int| 0 <= i < pending.len() && key_of((#[trigger] pending[i]).1) == k
}

/// Whether what goes into the output of a module refers to symbols that were met,
/// and to modules that become namespaces.
pub open spec fn info_ok(
    analyzed: Set<(usize, usize)>,
    to_namespace: Seq<(usize, ())>,
    module_id: usize,
    e: Emitted,
) -> bool {
    &&& forall|i: int|
        0 <= i < e.mapping.len() ==> analyzed.contains(key_of((#[trigger] e.mapping[i]).1))
    &&& match e.namespace {
        Some(namespace) => forall|i: int|
            0 <= i < namespace.exports.len() ==> analyzed.contains(
                key_of((#[trigger] namespace.exports[i]).1),
            ) && (namespace.exports[i].1.module_id == module_id || has_key(
                to_namespace,
                namespace.exports[i].1.module_id,
            )),
        None => true,
    }
}

/// Whether this holds of every module that came.
pub open spec fn infos_ok(
    modules: Seq<ModuleInfo>,
    analyzed: Set<(usize, usize)>,
    to_namespace: Seq<(usize, ())>,
    infos: Seq<(usize, Emitted)>,
) -> bool {
    &&& distinct_keys(infos)
    &&& forall|i: int|
        0 <= i < infos.len() ==> (#[trigger] infos[i]).0 < modules.len() && info_ok(
            analyzed,
            to_namespace,
            infos[i].0,
            infos[i].1,
        )
}

/// What every step of a bundle keeps: a symbol that was met is there, and it has a
/// name or is still to be emitted.
pub open spec fn bundle_ok(modules: Seq<ModuleInfo>, b: Bundle) -> bool {
    &&& forall|i: int|
        0 <= i < b.pending.len() ==> is_symbol(modules, (#[trigger] b.pending[i]).1)
            && b.analyzed.contains(key_of(b.pending[i].1))
    &&& forall|k: (usize, usize)| #[trigger]
        b.analyzed.contains(k) ==> is_symbol(modules, symbol_of_key(k))
    &&& b.unsupported || forall|k: (usize, usize)| #[trigger]
        b.analyzed.contains(k) ==> has_key(b.names.assigned, k) || is_pending(b.pending, k)
    &&& infos_ok(modules, b.analyzed, b.to_namespace, b.out.infos)
    &&& distinct_keys(b.to_namespace)
    &&& forall|i: int|
        0 <= i < b.to_namespace.len() ==> (#[trigger] b.to_namespace[i]).0 < modules.len()
}

/// Whether a state comes from another by meeting symbols.
pub open spec fn grows(a: Bundle, b: Bundle) -> bool {
    &&& a.analyzed.subset_of(b.analyzed)
    &&& b.analyzed == a.analyzed ==> b.pending == a.pending
    &&& a.pending.len() <= b.pending.len()
    &&& b.names == a.names
    &&& a.unsupported ==> b.unsupported
    &&& forall|m: usize| #[trigger]
        has_key(a.to_namespace, m) ==> has_key(b.to_namespace, m)
}

proof fn lemma_grows_on(a: Bundle, b: Bundle, c: Bundle)
    requires
        grows(a, b),
        grows(b, c),
    ensures
        grows(a, c),
{
    if c.analyzed == a.analyzed {
        assert(b.analyzed =~= a.analyzed);
    }
}

proof fn lemma_info_grows(
    a1: Set<(usize, usize)>,
    n1: Seq<(usize, ())>,
    a2: Set<(usize, usize)>,
    n2: Seq<(usize, ())>,
    modules: Seq<ModuleInfo>,
    infos: Seq<(usize, Emitted)>,
)
    requires
        infos_ok(modules, a1, n1, infos),
        a1.subset_of(a2),
        forall|m: usize| #[trigger] has_key(n1, m) ==> has_key(n2, m),
    ensures
        infos_ok(modules, a2, n2, infos),
{
    assert forall|i: int| 0 <= i < infos.len() implies (#[trigger] infos[i]).0 < modules.len()
        && info_ok(a2, n2, infos[i].0, infos[i].1) by {
        assert(info_ok(a1, n1, infos[i].0, infos[i].1));
        match infos[i].1.namespace {
            Some(namespace) => {
                assert forall|j: int| 0 <= j < namespace.exports.len() implies a2.contains(
                    key_of((#[trigger] namespace.exports[j]).1),
                ) && (namespace.exports[j].1.module_id == infos[i].0 || has_key(
                    n2,
                    namespace.exports[j].1.module_id,
                )) by {
                    assert(a1.contains(key_of(namespace.exports[j].1)));
                }
            },
            None => {},
        }
    }
}

proof fn lemma_infos_created(
    modules: Seq<ModuleInfo>,
    analyzed: Set<(usize, usize)>,
    to_namespace: Seq<(usize, ())>,
    infos: Seq<(usize, Emitted)>,
    module_id: usize,
)
    requires
        infos_ok(modules, analyzed, to_namespace, infos),
        module_id < modules.len(),
    ensures
        infos_ok(modules, analyzed, to_namespace, created(infos, module_id)),
        has_key(created(infos, module_id), module_id),
        info_ok(
            analyzed,
            to_namespace,
            module_id,
            emitted_of(created(infos, module_id), module_id),
        ),
{
    let after = created(infos, module_id);
    lemma_created(infos, module_id, module_id);
    assert forall|i: int| 0 <= i < after.len() implies (#[trigger] after[i]).0 < modules.len()
        && info_ok(analyzed, to_namespace, after[i].0, after[i].1) by {
        if i < infos.len() {
            assert(after[i] == infos[i]);
        }
    }
    lemma_key_place(after, module_id);
    assert(after[key_place(after, module_id)].0 == module_id);
}

proof fn lemma_infos_with(
    modules: Seq<ModuleInfo>,
    analyzed: Set<(usize, usize)>,
    to_namespace: Seq<(usize, ())>,
    infos: Seq<(usize, Emitted)>,
    module_id: usize,
    e: Emitted,
)
    requires
        infos_ok(modules, analyzed, to_namespace, infos),
        has_key(infos, module_id),
        info_ok(analyzed, to_namespace, module_id, e),
    ensures
        infos_ok(modules, analyzed, to_namespace, with_emitted(infos, module_id, e)),
        has_key(with_emitted(infos, module_id, e), module_id),
        emitted_of(with_emitted(infos, module_id, e), module_id) == e,
{
    let after = with_emitted(infos, module_id, e);
    lemma_with_emitted(infos, module_id, e, module_id);
    lemma_key_place(infos, module_id);
    let p = key_place(infos, module_id);
    assert forall|i: int, j: int| 0 <= i < j < after.len() implies (#[trigger] after[i]).0 != (
    #[trigger] after[j]).0 by {
        assert(infos[i].0 != infos[j].0);
        assert(after[i].0 == infos[i].0);
        assert(after[j].0 == infos[j].0);
    }
    assert forall|i: int| 0 <= i < after.len() implies (#[trigger] after[i]).0 < modules.len()
        && info_ok(analyzed, to_namespace, after[i].0, after[i].1) by {
        if i != p {
            assert(after[i] == infos[i]);
        } else {
            assert(infos[i].0 < modules.len());
        }
    }
}

pub proof fn lemma_met(modules: Seq<ModuleInfo>, b: Bundle, id: UniqueSymbolId)
    requires
        bundle_ok(modules, b),
        is_symbol(modules, id),
    ensures
        bundle_ok(modules, met(b, id)),
        grows(b, met(b, id)),
        met(b, id).analyzed.contains(key_of(id)),
        met(b, id).out == b.out,
        met(b, id).to_namespace == b.to_namespace,
{
    let after = met(b, id);
    if !b.analyzed.contains(key_of(id)) {
        assert(after.analyzed != b.analyzed) by {
            assert(after.analyzed.contains(key_of(id)));
        }
        assert forall|k: (usize, usize)| #[trigger]
            after.analyzed.contains(k) implies is_symbol(modules, symbol_of_key(k)) by {
            if k == key_of(id) {
                assert(symbol_of_key(k) == id);
            }
        }
        assert forall|i: int| 0 <= i < after.pending.len() implies is_symbol(
            modules,
            (#[trigger] after.pending[i]).1,
        ) && after.analyzed.contains(key_of(after.pending[i].1)) by {
            if i < b.pending.len() {
                assert(after.pending[i] == b.pending[i]);
            }
        }
        if !after.unsupported {
            assert forall|k: (usize, usize)| #[trigger] after.analyzed.contains(k) implies has_key(
                after.names.assigned,
                k,
            ) || is_pending(after.pending, k) by {
                if k == key_of(id) {
                    assert(key_of(after.pending[b.pending.len() as int].1) == k);
                } else if !has_key(b.names.assigned, k) {
                    assert(b.analyzed.contains(k));
                    let i = choose|i: int|
                        0 <= i < b.pending.len() && key_of((#[trigger] b.pending[i]).1) == k;
                    assert(after.pending[i] == b.pending[i]);
                }
            }
        }
        lemma_info_grows(
            b.analyzed,
            b.to_namespace,
            after.analyzed,
            after.to_namespace,
            modules,
            b.out.infos,
        );
    }
}

proof fn lemma_entry_keys(s: Seq<(usize, ())>, key: usize, n: nat)
    requires
        distinct_keys(s),
        key < n,
        forall|i: int| 0 <= i < s.len() ==> (#[trigger] s[i]).0 < n,
    ensures
        distinct_keys(with_entry(s, key, ())),
        has_key(with_entry(s, key, ()), key),
        forall|m: usize| #[trigger] has_key(s, m) ==> has_key(with_entry(s, key, ()), m),
        forall|i: int|
            0 <= i < with_entry(s, key, ()).len() ==> (#[trigger] with_entry(s, key, ())[i]).0 < n,
{
    let after = with_entry(s, key, ());
    lemma_key_place(s, key);
    lemma_key_place(after, key);
    assert forall|i: int, j: int| 0 <= i < j < after.len() implies (#[trigger] after[i]).0 != (
    #[trigger] after[j]).0 by {
        if j < s.len() {
            assert(s[i].0 != s[j].0);
            assert(after[i].0 == s[i].0);
            assert(after[j].0 == s[j].0);
        } else {
            assert(after[i] == s[i]);
        }
    }
    if has_key(s, key) {
        assert(after[key_place(s, key)].0 == key);
        lemma_key_place_is(after, key_place(s, key));
    } else {
        assert(after[s.len() as int].0 == key);
        lemma_key_place_is(after, s.len() as int);
    }
    assert forall|m: usize| #[trigger] has_key(s, m) implies has_key(after, m) by {
        lemma_key_place(s, m);
        let p = key_place(s, m);
        assert(after[p].0 == m);
        lemma_key_place_is(after, p);
    }
    assert forall|i: int| 0 <= i < after.len() implies (#[trigger] after[i]).0 < n by {
        if i < s.len() {
            assert(s[i].0 < n);
            assert(after[i].0 == s[i].0);
        }
    }
}

pub proof fn lemma_exports_met(
    modules: Seq<ModuleInfo>,
    module_id: usize,
    n: nat,
    b: Bundle,
)
    requires
        modules_wf(modules),
        bundle_ok(modules, b),
        module_id < modules.len(),
        n <= modules[module_id as int].exports@.len(),
        has_key(b.out.infos, module_id),
        emitted_of(b.out.infos, module_id).namespace is Some,
    ensures
        bundle_ok(modules, exports_met(modules, module_id, n, b)),
        grows(b, exports_met(modules, module_id, n, b)),
        has_key(exports_met(modules, module_id, n, b).out.infos, module_id),
        emitted_of(
            exports_met(modules, module_id, n, b).out.infos,
            module_id,
        ).namespace is Some,
    decreases n,
{
    if n > 0 {
        lemma_exports_met(modules, module_id, (n - 1) as nat, b);
        let before = exports_met(modules, module_id, (n - 1) as nat, b);
        let export = modules[module_id as int].exports@[n - 1];
        match export.definition {
            Some(id) => {
                assert(is_symbol(modules, id));
                lemma_met(modules, before, id);
                let middle = met(before, id);
                let after = exports_met(modules, module_id, n, b);
                lemma_entry_keys(middle.to_namespace, id.module_id, modules.len());
                lemma_info_grows(
                    middle.analyzed,
                    middle.to_namespace,
                    after.analyzed,
                    after.to_namespace,
                    modules,
                    middle.out.infos,
                );
                let e = emitted_of(middle.out.infos, module_id);
                let namespace = e.namespace.unwrap();
                let exports = namespace.exports.push((export.name@, id));
                let changed = Emitted {
                    namespace: Some(Namespace { exports, ..namespace }),
                    ..e
                };
                lemma_key_place(middle.out.infos, module_id);
                let p = key_place(middle.out.infos, module_id);
                assert(info_ok(
                    after.analyzed,
                    after.to_namespace,
                    middle.out.infos[p].0,
                    middle.out.infos[p].1,
                ));
                assert forall|i: int| 0 <= i < exports.len() implies after.analyzed.contains(
                    key_of((#[trigger] exports[i]).1),
                ) && (exports[i].1.module_id == module_id || has_key(
                    after.to_namespace,
                    exports[i].1.module_id,
                )) by {
                    if i < namespace.exports.len() {
                        assert(exports[i] == namespace.exports[i]);
                    }
                }
                lemma_infos_with(
                    modules,
                    after.analyzed,
                    after.to_namespace,
                    middle.out.infos,
                    module_id,
                    changed,
                );
                assert(bundle_ok(modules, after));
                assert(grows(middle, after));
                lemma_grows_on(before, middle, after);
                lemma_grows_on(b, before, after);
            },
            None => {},
        }
    }
}

proof fn lemma_with_namespace(
    modules: Seq<ModuleInfo>,
    b: Bundle,
    module_id: usize,
    name: Seq<char>,
)
    requires
        bundle_ok(modules, b),
        module_id < modules.len(),
    ensures
        infos_ok(
            modules,
            b.analyzed,
            b.to_namespace,
            with_namespace(b.out.infos, module_id, name),
        ),
        has_key(with_namespace(b.out.infos, module_id, name), module_id),
        emitted_of(with_namespace(b.out.infos, module_id, name), module_id).namespace is Some,
{
    lemma_infos_created(modules, b.analyzed, b.to_namespace, b.out.infos, module_id);
    let infos = created(b.out.infos, module_id);
    let e = emitted_of(infos, module_id);
    if e.namespace is None {
        lemma_infos_with(
            modules,
            b.analyzed,
            b.to_namespace,
            infos,
            module_id,
            Emitted { namespace: Some(Namespace { name, exports: Seq::empty() }), ..e },
        );
    }
}

pub proof fn lemma_module_emitted(modules: Seq<ModuleInfo>, e: Emission, b: Bundle)
    requires
        modules_wf(modules),
        bundle_ok(modules, b),
        e.id.module_id < modules.len(),
    ensures
        bundle_ok(modules, module_emitted(modules, e, b)),
        grows(b, module_emitted(modules, e, b)),
{
    let id = e.id.module_id;
    lemma_with_namespace(modules, b, id, e.name);
    let infos = with_namespace(b.out.infos, id, e.name);
    let middle = Bundle { out: Out { infos, ..b.out }, ..b };
    assert(bundle_ok(modules, middle));
    assert(grows(b, middle));
    lemma_exports_met(modules, id, modules[id as int].exports@.len(), middle);
    lemma_grows_on(
        b,
        middle,
        exports_met(modules, id, modules[id as int].exports@.len(), middle),
    );
}

proof fn lemma_item_added(
    modules: Seq<ModuleInfo>,
    b: Bundle,
    module_id: usize,
    item: Tree,
)
    requires
        bundle_ok(modules, b),
        module_id < modules.len(),
    ensures
        infos_ok(
            modules,
            b.analyzed,
            b.to_namespace,
            item_added(b.out, module_id, modules[module_id as int], item).infos,
        ),
{
    let middle = started(b.out, module_id, modules[module_id as int]);
    assert(middle.infos == b.out.infos);
    lemma_infos_created(modules, b.analyzed, b.to_namespace, b.out.infos, module_id);
    let infos = created(b.out.infos, module_id);
    let e = emitted_of(infos, module_id);
    let after = item_added(b.out, module_id, modules[module_id as int], item);
    if after.infos != b.out.infos {
        let changed = emitted_of(after.infos, module_id);
        let start = super::output::start_of(middle, module_id) as nat;
        lemma_infos_with(
            modules,
            b.analyzed,
            b.to_namespace,
            infos,
            module_id,
            Emitted { items: e.items.push(crate::helpers::moved(item, start)), ..e },
        );
    }
}

/// Whether every symbol that an identifier stands for is there.
pub open spec fn mapping_valid(
    modules: Seq<ModuleInfo>,
    mapping: Seq<((Seq<char>, u32), UniqueSymbolId)>,
) -> bool {
    forall|i: int| 0 <= i < mapping.len() ==> is_symbol(modules, (#[trigger] mapping[i]).1)
}

proof fn lemma_idents_mapped(
    modules: Seq<ModuleInfo>,
    m: Mapped,
    id: UniqueSymbolId,
    ids: Seq<(Seq<char>, u32)>,
    n: nat,
)
    requires
        modules_wf(modules),
        is_symbol(modules, id),
        mapping_valid(modules, m.mapping),
    ensures
        mapping_valid(
            modules,
            idents_mapped(m, symbol_at(modules, id), ids, n).mapping,
        ),
    decreases n,
{
    if n > 0 {
        lemma_idents_mapped(modules, m, id, ids, (n - 1) as nat);
        let before = idents_mapped(m, symbol_at(modules, id), ids, (n - 1) as nat);
        let symbol = modules[id.module_id as int].symbols@[id.symbol_id as int];
        let target = ident_target(symbol, ids[n - 1]);
        let after = idents_mapped(m, symbol_at(modules, id), ids, n);
        assert forall|i: int| 0 <= i < after.mapping.len() implies is_symbol(
            modules,
            (#[trigger] after.mapping[i]).1,
        ) by {
            if i < before.mapping.len() {
                assert(after.mapping[i] == before.mapping[i]);
            }
        }
    }
}

/// What every declaration keeps.
pub open spec fn emitting_ok(modules: Seq<ModuleInfo>, s: Emitting) -> bool {
    bundle_ok(modules, s.b) && mapping_valid(modules, s.m.mapping)
}

proof fn lemma_decl_added(
    modules: Seq<ModuleInfo>,
    e: Emission,
    s: Emitting,
    decl: Tree,
    span: Span,
)
    requires
        modules_wf(modules),
        emitting_ok(modules, s),
        is_symbol(modules, e.id),
    ensures
        emitting_ok(modules, decl_added(modules, e, s, decl, span)),
        grows(s.b, decl_added(modules, e, s, decl, span).b),
{
    let after = decl_added(modules, e, s, decl, span);
    let v = super::transform::visited(
        decl,
        super::transform::Mode::Plain,
        super::bundle::bundle_env(modules[e.id.module_id as int]),
        super::transformer::fresh(),
    );
    let tree = v.trees[0];
    lemma_item_added(
        modules,
        s.b,
        e.id.module_id,
        super::output::decl_item(tree, e.name, span, e.export_name == Some(e.name)),
    );
    lemma_idents_mapped(modules, s.m, e.id, idents(tree), idents(tree).len());
}

pub proof fn lemma_decl_emitted(
    modules: Seq<ModuleInfo>,
    e: Emission,
    s: Emitting,
    decl: SymbolDecl,
)
    requires
        modules_wf(modules),
        emitting_ok(modules, s),
        is_symbol(modules, e.id),
    ensures
        emitting_ok(modules, decl_emitted(modules, e, s, decl)),
        grows(s.b, decl_emitted(modules, e, s, decl).b),
{
    if !decl.has_overloads && decl.is_definition && decl.node is Some {
        let node = decl.node.unwrap();
        let t = node.tree@;
        lemma_module_emitted(modules, e, s.b);
        let inner = crate::syntax::child(t, crate::syntax::Role::Decl);
        lemma_decl_added(modules, e, s, inner, t.span);
        lemma_decl_added(
            modules,
            e,
            s,
            super::bundle::default_decl(
                crate::syntax::Kind::ClassDecl,
                e.name,
                crate::syntax::Role::Class,
                crate::syntax::child(inner, crate::syntax::Role::Class),
            ),
            t.span,
        );
        lemma_decl_added(
            modules,
            e,
            s,
            super::bundle::default_decl(
                crate::syntax::Kind::FnDecl,
                e.name,
                crate::syntax::Role::Function,
                crate::syntax::child(inner, crate::syntax::Role::Function),
            ),
            t.span,
        );
        lemma_decl_added(
            modules,
            e,
            s,
            super::bundle::default_const(
                e.name,
                crate::syntax::child(t, crate::syntax::Role::Expr).kind,
            ),
            t.span,
        );
        lemma_decl_added(modules, e, s, t, t.span);
        lemma_decl_added(
            modules,
            e,
            s,
            super::bundle::with_declarator(t, node.declarator.unwrap() as int),
            t.span,
        );
    }
}

pub proof fn lemma_decls_emitted(modules: Seq<ModuleInfo>, e: Emission, s: Emitting, n: nat)
    requires
        modules_wf(modules),
        emitting_ok(modules, s),
        is_symbol(modules, e.id),
    ensures
        emitting_ok(modules, decls_emitted(modules, e, s, n)),
        grows(s.b, decls_emitted(modules, e, s, n).b),
    decreases n,
{
    if n > 0 {
        lemma_decls_emitted(modules, e, s, (n - 1) as nat);
        let before = decls_emitted(modules, e, s, (n - 1) as nat);
        let decl = symbol_at(modules, e.id).decls@[n - 1];
        lemma_decl_emitted(modules, e, before, decl);
        lemma_grows_on(s.b, before.b, decl_emitted(modules, e, before, decl).b);
    }
}

pub proof fn lemma_mapping_met(
    modules: Seq<ModuleInfo>,
    b: Bundle,
    module_id: usize,
    mapping: Seq<((Seq<char>, u32), UniqueSymbolId)>,
    n: nat,
)
    requires
        bundle_ok(modules, b),
        module_id < modules.len(),
        mapping_valid(modules, mapping),
        n <= mapping.len(),
    ensures
        bundle_ok(modules, mapping_met(b, module_id, mapping, n)),
        grows(b, mapping_met(b, module_id, mapping, n)),
    decreases n,
{
    if n > 0 {
        lemma_mapping_met(modules, b, module_id, mapping, (n - 1) as nat);
        let before = mapping_met(b, module_id, mapping, (n - 1) as nat);
        let id = mapping[n - 1].1;
        lemma_met(modules, before, id);
        let middle = met(before, id);
        lemma_infos_created(
            modules,
            middle.analyzed,
            middle.to_namespace,
            middle.out.infos,
            module_id,
        );
        let infos = created(middle.out.infos, module_id);
        let e = emitted_of(infos, module_id);
        let entries = with_entry(e.mapping, mapping[n - 1].0, id);
        lemma_key_place(e.mapping, mapping[n - 1].0);
        assert forall|i: int| 0 <= i < entries.len() implies middle.analyzed.contains(
            key_of((#[trigger] entries[i]).1),
        ) by {
            if i < e.mapping.len() && i != key_place(e.mapping, mapping[n - 1].0) {
                assert(entries[i] == e.mapping[i]);
            }
        }
        lemma_infos_with(
            modules,
            middle.analyzed,
            middle.to_namespace,
            infos,
            module_id,
            Emitted { mapping: entries, ..e },
        );
        let after = mapping_met(b, module_id, mapping, n);
        assert(bundle_ok(modules, after));
        assert(grows(middle, after));
        lemma_grows_on(before, middle, after);
        lemma_grows_on(b, before, after);
    }
}

pub proof fn lemma_symbol_emitted(modules: Seq<ModuleInfo>, e: Emission, b: Bundle)
    requires
        modules_wf(modules),
        bundle_ok(modules, b),
        is_symbol(modules, e.id),
    ensures
        bundle_ok(modules, symbol_emitted(modules, e, b)),
        grows(b, symbol_emitted(modules, e, b)),
{
    if !b.emitted.contains(key_of(e.id)) {
        let s = Emitting {
            b: Bundle {
                emitted: b.emitted.insert(key_of(e.id)),
                unsupported: b.unsupported || !modules[e.id.module_id as int].is_esm,
                ..b
            },
            m: Mapped { mapping: Seq::empty(), unsupported: false },
        };
        assert(emitting_ok(modules, s));
        assert(grows(b, s.b));
        let n = symbol_at(modules, e.id).decls@.len();
        lemma_decls_emitted(modules, e, s, n);
        let done = decls_emitted(modules, e, s, n);
        let middle = Bundle { unsupported: done.b.unsupported || done.m.unsupported, ..done.b };
        assert(bundle_ok(modules, middle));
        assert(grows(done.b, middle));
        lemma_mapping_met(
            modules,
            middle,
            e.id.module_id,
            done.m.mapping,
            done.m.mapping.len(),
        );
        let last = mapping_met(middle, e.id.module_id, done.m.mapping, done.m.mapping.len());
        lemma_grows_on(b, s.b, done.b);
        lemma_grows_on(b, done.b, middle);
        lemma_grows_on(b, middle, last);
    }
}

/// A symbol that got a name has it.
pub proof fn lemma_named(n: Names, id: UniqueSymbolId, own: Seq<char>, k: (usize, usize))
    ensures
        has_key(with_top_level_name(n, id, own).assigned, key_of(id)),
        has_key(n.assigned, k) ==> has_key(with_top_level_name(n, id, own).assigned, k)
            && key_place(with_top_level_name(n, id, own).assigned, k) == key_place(n.assigned, k)
            && with_top_level_name(n, id, own).assigned[key_place(n.assigned, k)]
            == n.assigned[key_place(n.assigned, k)],
{
    let after = with_top_level_name(n, id, own).assigned;
    lemma_key_place(n.assigned, key_of(id));
    lemma_key_place(n.assigned, k);
    lemma_key_place(after, key_of(id));
    lemma_key_place(after, k);
    if !has_key(n.assigned, key_of(id)) {
        assert(after[n.assigned.len() as int].0 == key_of(id));
        if has_key(n.assigned, k) {
            let p = key_place(n.assigned, k);
            assert(after[p] == n.assigned[p]);
            let q = key_place(after, k);
            if q < p {
                assert(after[q] == n.assigned[q]);
            }
        }
    }
}

pub proof fn lemma_stepped(modules: Seq<ModuleInfo>, b: Bundle)
    requires
        modules_wf(modules),
        bundle_ok(modules, b),
        b.pending.len() > 0,
    ensures
        bundle_ok(modules, stepped(modules, b)),
        b.analyzed.subset_of(stepped(modules, b).analyzed),
        stepped(modules, b).analyzed == b.analyzed ==> stepped(modules, b).pending.len()
            < b.pending.len(),
        b.unsupported ==> stepped(modules, b).unsupported,
{
    let (export_name, id) = b.pending[0];
    assert(is_symbol(modules, b.pending[0].1));
    let symbol = symbol_at(modules, id);
    let rest = Bundle { pending: b.pending.skip(1), ..b };
    assert forall|i: int| 0 <= i < rest.pending.len() implies is_symbol(
        modules,
        (#[trigger] rest.pending[i]).1,
    ) && rest.analyzed.contains(key_of(rest.pending[i].1)) by {
        assert(rest.pending[i] == b.pending[i + 1]);
    }
    if has_definition(symbol) {
        let own = own_name(symbol, id.module_id);
        let e = Emission { id, name: top_level_name(b.names, id, own), export_name };
        let named = Bundle { names: with_top_level_name(b.names, id, own), ..rest };
        lemma_named(b.names, id, own, key_of(id));
        if !named.unsupported {
            assert forall|k: (usize, usize)| #[trigger] named.analyzed.contains(k) implies has_key(
                named.names.assigned,
                k,
            ) || is_pending(named.pending, k) by {
                lemma_named(b.names, id, own, k);
                assert(b.analyzed.contains(k));
                if !has_key(b.names.assigned, k) {
                    let i = choose|i: int|
                        0 <= i < b.pending.len() && key_of((#[trigger] b.pending[i]).1) == k;
                    if i > 0 {
                        assert(named.pending[i - 1] == b.pending[i]);
                    }
                }
            }
        }
        assert(bundle_ok(modules, named));
        lemma_symbol_emitted(modules, e, named);
        let done = symbol_emitted(modules, e, named);
        assert(bundle_ok(modules, export_queued(done, e, b.emitted.contains(key_of(id)))));
    }
}

/// What holds of the namespaces that were made.
pub proof fn lemma_namespaces_made(modules: Seq<ModuleInfo>, b: Bundle, n: nat)
    requires
        modules_wf(modules),
        bundle_ok(modules, b),
        n <= b.to_namespace.len(),
    ensures
        ({
            let done = namespaces_made(modules, b, n);
            &&& infos_ok(modules, b.analyzed, b.to_namespace, done.out.infos)
            &&& forall|k: (usize, usize)| #[trigger]
                has_key(b.names.assigned, k) ==> has_key(done.names.assigned, k)
            &&& forall|i: int|
                0 <= i < n ==> has_key(done.out.infos, (#[trigger] b.to_namespace[i]).0)
                    && emitted_of(done.out.infos, b.to_namespace[i].0).namespace is Some
            &&& done == (Bundle { names: done.names, out: done.out, ..b })
            &&& done.out == (Out { infos: done.out.infos, ..b.out })
        }),
    decreases n,
{
    if n > 0 {
        lemma_namespaces_made(modules, b, (n - 1) as nat);
        let before = namespaces_made(modules, b, (n - 1) as nat);
        let done = namespaces_made(modules, b, n);
        let module_id = b.to_namespace[n - 1].0;
        let id = module_symbol(modules, module_id);
        let own = own_name(symbol_at(modules, id), module_id);
        let name = top_level_name(before.names, id, own);
        let infos = before.out.infos;
        let middle = created(infos, module_id);
        lemma_infos_created(modules, b.analyzed, b.to_namespace, infos, module_id);
        let e = emitted_of(middle, module_id);
        let changed = Emitted {
            namespace: Some(Namespace { name, exports: Seq::empty() }),
            ..e
        };
        if e.namespace is None {
            lemma_infos_with(
                modules,
                b.analyzed,
                b.to_namespace,
                middle,
                module_id,
                changed,
            );
        }
        assert forall|k: (usize, usize)| #[trigger] has_key(b.names.assigned, k) implies has_key(
            done.names.assigned,
            k,
        ) by {
            lemma_named(before.names, id, own, k);
        }
        assert forall|i: int| 0 <= i < n implies has_key(
            done.out.infos,
            (#[trigger] b.to_namespace[i]).0,
        ) && emitted_of(done.out.infos, b.to_namespace[i].0).namespace is Some by {
            let other = b.to_namespace[i].0;
            if i < n - 1 {
                assert(has_key(before.out.infos, other));
                lemma_created(infos, module_id, other);
                lemma_key_place(infos, other);
                lemma_key_place(middle, other);
                assert(middle[key_place(middle, other)] == infos[key_place(infos, other)]);
                if e.namespace is None {
                    lemma_with_emitted(middle, module_id, changed, other);
                }
            }
        }
    }
}

/// All symbols of the first `n` modules.
pub open spec fn keys_upto(modules: Seq<ModuleInfo>, n: nat) -> Set<(usize, usize)>
    decreases n,
{
    if n == 0 {
        Set::empty()
    } else {
        keys_upto(modules, (n - 1) as nat).union(
            vstd::set_lib::set_int_range(0, modules[n - 1].symbols@.len() as int).map(
                |k: int| ((n - 1) as usize, k as usize),
            ),
        )
    }
}

pub proof fn lemma_keys_upto(modules: Seq<ModuleInfo>, n: nat)
    requires
        n <= modules.len() <= usize::MAX,
    ensures
        keys_upto(modules, n).finite(),
        forall|k: (usize, usize)|
            k.0 < n && k.1 < modules[k.0 as int].symbols@.len() ==> #[trigger] keys_upto(
                modules,
                n,
            ).contains(k),
    decreases n,
{
    if n > 0 {
        lemma_keys_upto(modules, (n - 1) as nat);
        let len = modules[n - 1].symbols@.len() as int;
        let range = vstd::set_lib::set_int_range(0, len);
        vstd::set_lib::lemma_int_range(0, len);
        let f = |k: int| ((n - 1) as usize, k as usize);
        range.lemma_map_finite(f);
        let last = range.map(f);
        assert forall|k: (usize, usize)|
            k.0 < n && k.1 < modules[k.0 as int].symbols@.len() implies #[trigger] keys_upto(
            modules,
            n,
        ).contains(k) by {
            if k.0 == n - 1 {
                assert(range.contains(k.1 as int));
                assert(f(k.1 as int) == k);
                assert(last.contains(k));
            } else {
                assert(keys_upto(modules, (n - 1) as nat).contains(k));
            }
        }
    }
}

/// No more symbols are met than there are.
pub proof fn lemma_analyzed_bounded(modules: Seq<ModuleInfo>, b: Bundle)
    requires
        bundle_ok(modules, b),
        modules.len() <= usize::MAX,
    ensures
        b.analyzed.finite(),
        b.analyzed.len() <= keys_upto(modules, modules.len()).len(),
{
    let all = keys_upto(modules, modules.len());
    lemma_keys_upto(modules, modules.len());
    assert forall|k: (usize, usize)| b.analyzed.contains(k) implies all.contains(k) by {
        assert(is_symbol(modules, symbol_of_key(k)));
    }
    vstd::set_lib::lemma_set_subset_finite(all, b.analyzed);
    vstd::set_lib::lemma_len_subset(b.analyzed, all);
}

}
