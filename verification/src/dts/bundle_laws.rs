//! What holds of every bundle of declarations.

use vstd::prelude::*;

use super::analyzer::{Target, UniqueSymbolId};
use super::bundle::{
    after, bundle_env, decl_added, decl_emitted, decls_emitted, exports_met, finished,
    is_single_var, mapping_met, met, module_emitted, modules_wf, namespaces_made, stepped,
    symbol_emitted, Bundle, Emission, Emitting,
};
use super::bundle_proofs::{
    bundle_ok, is_pending, keys_upto, lemma_analyzed_bounded, lemma_named, lemma_namespaces_made,
    lemma_stepped,
};
use super::bundler::{
    initial, is_supported, lemma_initial, pending_upto, ran, stops, stops_after, targets_valid,
};
use super::idents::assigned_name;
use super::names::{key_of, own_name, top_level_name, with_top_level_name, Names};
use super::output::{decl_item, item_added};
use super::root_symbol::{has_definition, module_symbol, symbol_at, ModuleInfo, SymbolDecl};
use super::transform::{visited, Mode};
use super::transformer::fresh;
use crate::collections::{has_key, key_place};
use crate::syntax::{Kind, Span, Tree};

verus! {

/// A symbol keeps the name that it has, whichever others get one.
pub proof fn law_names_are_kept(n: Names, id: UniqueSymbolId, own: Seq<char>, other: UniqueSymbolId)
    requires
        has_key(n.assigned, key_of(other)),
    ensures
        has_key(with_top_level_name(n, id, own).assigned, key_of(other)),
        assigned_name(with_top_level_name(n, id, own).assigned, other) == assigned_name(
            n.assigned,
            other,
        ),
{
    lemma_named(n, id, own, key_of(other));
}

/// Whether a state comes from another without emitting further symbols: those that
/// are to be emitted come behind the others.
spec fn extends(a: Bundle, b: Bundle) -> bool {
    &&& a.pending.is_prefix_of(b.pending)
    &&& b.names == a.names
    &&& b.emitted == a.emitted
    &&& b.queued == a.queued
}

proof fn lemma_extends_on(a: Bundle, b: Bundle, c: Bundle)
    requires
        extends(a, b),
        extends(b, c),
    ensures
        extends(a, c),
{
    assert(a.pending =~= c.pending.subrange(0, a.pending.len() as int)) by {
        assert(a.pending == b.pending.subrange(0, a.pending.len() as int));
        assert(b.pending == c.pending.subrange(0, b.pending.len() as int));
    }
}

proof fn lemma_met_extends(b: Bundle, id: UniqueSymbolId)
    ensures
        extends(b, met(b, id)),
{
    assert(b.pending =~= b.pending.push((None, id)).subrange(0, b.pending.len() as int));
    assert(b.pending =~= b.pending.subrange(0, b.pending.len() as int));
}

proof fn lemma_extends_self(b: Bundle, c: Bundle)
    requires
        c.pending == b.pending,
        c.names == b.names,
        c.emitted == b.emitted,
        c.queued == b.queued,
    ensures
        extends(b, c),
{
    assert(b.pending =~= b.pending.subrange(0, b.pending.len() as int));
}

proof fn lemma_exports_extend(modules: Seq<ModuleInfo>, module_id: usize, n: nat, b: Bundle)
    ensures
        extends(b, exports_met(modules, module_id, n, b)),
    decreases n,
{
    if n == 0 {
        lemma_extends_self(b, b);
    } else {
        lemma_exports_extend(modules, module_id, (n - 1) as nat, b);
        let before = exports_met(modules, module_id, (n - 1) as nat, b);
        let done = exports_met(modules, module_id, n, b);
        match modules[module_id as int].exports@[n - 1].definition {
            Some(id) => {
                lemma_met_extends(before, id);
                lemma_extends_on(b, before, met(before, id));
                lemma_extends_self(met(before, id), done);
                lemma_extends_on(b, met(before, id), done);
            },
            None => {},
        }
    }
}

proof fn lemma_module_extends(modules: Seq<ModuleInfo>, e: Emission, b: Bundle)
    ensures
        extends(b, module_emitted(modules, e, b)),
{
    let id = e.id.module_id;
    let infos = super::bundle::with_namespace(b.out.infos, id, e.name);
    let middle = Bundle { out: super::output::Out { infos, ..b.out }, ..b };
    lemma_extends_self(b, middle);
    lemma_exports_extend(modules, id, modules[id as int].exports@.len(), middle);
    lemma_extends_on(
        b,
        middle,
        exports_met(modules, id, modules[id as int].exports@.len(), middle),
    );
}

proof fn lemma_decl_extends(
    modules: Seq<ModuleInfo>,
    e: Emission,
    s: Emitting,
    decl: SymbolDecl,
)
    ensures
        extends(s.b, decl_emitted(modules, e, s, decl).b),
{
    let done = decl_emitted(modules, e, s, decl);
    if !decl.has_overloads && decl.is_definition && decl.node is Some
        && decl.node.unwrap().tree@.kind == crate::syntax::Kind::Module {
        lemma_module_extends(modules, e, s.b);
    } else {
        lemma_extends_self(s.b, done.b);
    }
}

proof fn lemma_decls_extend(modules: Seq<ModuleInfo>, e: Emission, s: Emitting, n: nat)
    ensures
        extends(s.b, decls_emitted(modules, e, s, n).b),
    decreases n,
{
    if n == 0 {
        lemma_extends_self(s.b, s.b);
    } else {
        lemma_decls_extend(modules, e, s, (n - 1) as nat);
        let before = decls_emitted(modules, e, s, (n - 1) as nat);
        let decl = symbol_at(modules, e.id).decls@[n - 1];
        lemma_decl_extends(modules, e, before, decl);
        lemma_extends_on(s.b, before.b, decl_emitted(modules, e, before, decl).b);
    }
}

proof fn lemma_mapping_extends(
    b: Bundle,
    module_id: usize,
    mapping: Seq<((Seq<char>, u32), UniqueSymbolId)>,
    n: nat,
)
    ensures
        extends(b, mapping_met(b, module_id, mapping, n)),
    decreases n,
{
    if n == 0 {
        lemma_extends_self(b, b);
    } else {
        lemma_mapping_extends(b, module_id, mapping, (n - 1) as nat);
        let before = mapping_met(b, module_id, mapping, (n - 1) as nat);
        let middle = met(before, mapping[n - 1].1);
        lemma_met_extends(before, mapping[n - 1].1);
        lemma_extends_on(b, before, middle);
        lemma_extends_self(middle, mapping_met(b, module_id, mapping, n));
        lemma_extends_on(b, middle, mapping_met(b, module_id, mapping, n));
    }
}

/// What emitting a symbol leaves as it was.
proof fn lemma_symbol_extends(modules: Seq<ModuleInfo>, e: Emission, b: Bundle)
    ensures
        extends(
            Bundle { emitted: b.emitted.insert(key_of(e.id)), ..b },
            symbol_emitted(modules, e, b),
        ),
{
    let first = Bundle { emitted: b.emitted.insert(key_of(e.id)), ..b };
    if b.emitted.contains(key_of(e.id)) {
        assert(first.emitted =~= b.emitted);
        lemma_extends_self(first, b);
    } else {
        let s = Emitting {
            b: Bundle {
                unsupported: b.unsupported || !modules[e.id.module_id as int].is_esm,
                ..first
            },
            m: super::idents::Mapped { mapping: Seq::empty(), unsupported: false },
        };
        let n = symbol_at(modules, e.id).decls@.len();
        let done = decls_emitted(modules, e, s, n);
        let middle = Bundle { unsupported: done.b.unsupported || done.m.unsupported, ..done.b };
        lemma_extends_self(first, s.b);
        lemma_decls_extend(modules, e, s, n);
        lemma_extends_on(first, s.b, done.b);
        lemma_extends_self(done.b, middle);
        lemma_extends_on(first, done.b, middle);
        lemma_mapping_extends(middle, e.id.module_id, done.m.mapping, done.m.mapping.len());
        lemma_extends_on(first, middle, symbol_emitted(modules, e, b));
    }
}

/// A symbol is emitted once: to emit it again changes nothing, under whatever name.
pub proof fn law_symbols_are_emitted_once(
    modules: Seq<ModuleInfo>,
    first: Emission,
    again: Emission,
    b: Bundle,
)
    requires
        again.id == first.id,
    ensures
        symbol_emitted(modules, again, symbol_emitted(modules, first, b)) == symbol_emitted(
            modules,
            first,
            b,
        ),
{
    lemma_symbol_extends(modules, first, b);
}

/// The name at the top level of the symbol that is emitted next, once it has one.
pub open spec fn next_name(modules: Seq<ModuleInfo>, b: Bundle) -> Seq<char> {
    let id = b.pending[0].1;
    top_level_name(b.names, id, own_name(symbol_at(modules, id), id.module_id))
}

/// What the next symbol adds to what is known.
proof fn lemma_step(modules: Seq<ModuleInfo>, b: Bundle)
    requires
        b.pending.len() > 0,
        has_definition(symbol_at(modules, b.pending[0].1)),
    ensures
        ({
            let (export_name, id) = b.pending[0];
            let own = own_name(symbol_at(modules, id), id.module_id);
            let name = next_name(modules, b);
            let done = stepped(modules, b);
            &&& b.pending.skip(1).is_prefix_of(done.pending)
            &&& done.names == with_top_level_name(b.names, id, own)
            &&& has_key(done.names.assigned, key_of(id))
            &&& assigned_name(done.names.assigned, id) == name
            &&& done.emitted == b.emitted.insert(key_of(id))
            &&& done.queued == if export_name is Some && (export_name.unwrap() != name
                || b.emitted.contains(key_of(id))) {
                b.queued.push((name, export_name.unwrap()))
            } else {
                b.queued
            }
        }),
{
    let (export_name, id) = b.pending[0];
    let own = own_name(symbol_at(modules, id), id.module_id);
    let e = Emission { id, name: top_level_name(b.names, id, own), export_name };
    let rest = Bundle { pending: b.pending.skip(1), ..b };
    let named = Bundle { names: with_top_level_name(b.names, id, own), ..rest };
    lemma_symbol_extends(modules, e, named);
    lemma_named(b.names, id, own, key_of(id));
    let assigned = with_top_level_name(b.names, id, own).assigned;
    crate::collections::lemma_key_place(b.names.assigned, key_of(id));
    crate::collections::lemma_key_place(assigned, key_of(id));
    if !has_key(b.names.assigned, key_of(id)) {
        let p = key_place(assigned, key_of(id));
        if p < b.names.assigned.len() {
            assert(assigned[p] == b.names.assigned[p]);
        }
    }
}

/// Every bundle stops.
proof fn lemma_stops(modules: Seq<ModuleInfo>, start: Bundle, n: nat)
    requires
        modules_wf(modules),
        modules.len() <= usize::MAX,
        bundle_ok(modules, after(modules, start, n)),
        forall|m: nat| m < n ==> !stops(#[trigger] after(modules, start, m)),
    ensures
        exists|m: nat| stops_after(modules, start, m),
    decreases
            keys_upto(modules, modules.len()).len() - after(modules, start, n).analyzed.len(),
            after(modules, start, n).pending.len(),
{
    let b = after(modules, start, n);
    if stops(b) {
        assert(stops_after(modules, start, n));
    } else {
        let next = after(modules, start, n + 1);
        lemma_stepped(modules, b);
        lemma_analyzed_bounded(modules, b);
        lemma_analyzed_bounded(modules, next);
        vstd::set_lib::lemma_len_subset(b.analyzed, next.analyzed);
        if next.analyzed.len() == b.analyzed.len() {
            vstd::set_lib::lemma_subset_equality(b.analyzed, next.analyzed);
        }
        lemma_stops(modules, start, n + 1);
    }
}

/// What holds of the exports once some symbols were emitted: the others are still to
/// be, and those that were have names.
spec fn exports_hold(modules: Seq<ModuleInfo>, start: Bundle, n: nat, b: Bundle) -> bool {
    let pending = start.pending;
    &&& forall|j: int|
        n <= j < pending.len() ==> j - n < b.pending.len() && b.pending[j - n] == (
        #[trigger] pending[j])
    &&& forall|j: int|
        0 <= j < n && j < pending.len() ==> is_exported_as(
            modules,
            start,
            b,
            (#[trigger] pending[j]).1,
            pending[j].0.unwrap(),
        )
    &&& n <= pending.len() ==> forall|k: (usize, usize)| #[trigger]
        b.emitted.contains(k) ==> is_pending(pending.take(n as int), k)
}

/// Whether the next step declares a symbol under the name of an export and exports the
/// declaration: it is the first for the symbol, and for that export.
pub open spec fn declares_export(
    modules: Seq<ModuleInfo>,
    b: Bundle,
    id: UniqueSymbolId,
    export_name: Seq<char>,
) -> bool {
    &&& b.pending.len() > 0
    &&& b.pending[0] == (Some(export_name), id)
    &&& !b.emitted.contains(key_of(id))
    &&& next_name(modules, b) == export_name
}

/// Whether a bundle exports a symbol under a name: a list of exports does, or the step
/// that declared the symbol exported the declaration.
pub open spec fn is_exported_as(
    modules: Seq<ModuleInfo>,
    start: Bundle,
    b: Bundle,
    id: UniqueSymbolId,
    export_name: Seq<char>,
) -> bool {
    &&& has_key(b.names.assigned, key_of(id))
    &&& b.queued.contains((assigned_name(b.names.assigned, id), export_name)) || {
        &&& assigned_name(b.names.assigned, id) == export_name
        &&& exists|j: nat|
            declares_export(modules, #[trigger] after(modules, start, j), id, export_name)
    }
}

/// A declaration that goes into the bundle under the name of its export is exported.
pub proof fn law_declarations_under_their_names_are_exported(
    modules: Seq<ModuleInfo>,
    e: Emission,
    s: Emitting,
    decl: Tree,
    span: Span,
)
    requires
        e.export_name == Some(e.name),
        !(decl.kind == Kind::VarDecl && !is_single_var(decl)),
    ensures
        exists|item: Tree|
            item.kind == Kind::ExportDecl && decl_added(modules, e, s, decl, span).b.out
                == #[trigger] item_added(
                s.b.out,
                e.id.module_id,
                modules[e.id.module_id as int],
                item,
            ),
{
    let module = modules[e.id.module_id as int];
    let tree = visited(decl, Mode::Plain, bundle_env(module), fresh()).trees[0];
    let item = decl_item(tree, e.name, span, true);
    assert(decl_added(modules, e, s, decl, span).b.out == item_added(
        s.b.out,
        e.id.module_id,
        module,
        item,
    ));
}

proof fn lemma_exports_hold(
    modules: Seq<ModuleInfo>,
    targets: Seq<(Seq<char>, Target)>,
    last: nat,
    n: nat,
)
    requires
        stops_after(modules, initial(targets), last),
        !after(modules, initial(targets), last).unsupported,
        n <= last,
    ensures
        exports_hold(modules, initial(targets), n, after(modules, initial(targets), n)),
    decreases n,
{
    let pending = initial(targets).pending;
    lemma_pending_names(targets, targets.len());
    if n > 0 {
        lemma_exports_hold(modules, targets, last, (n - 1) as nat);
        let b = after(modules, initial(targets), (n - 1) as nat);
        let done = after(modules, initial(targets), n);
        assert(!stops(b));
        if n < last {
            assert(!stops(done));
        }
        assert(has_definition(symbol_at(modules, b.pending[0].1)));
        lemma_step(modules, b);
        let (export_name, id) = b.pending[0];
        let own = own_name(symbol_at(modules, id), id.module_id);
        assert forall|j: int| n <= j < pending.len() implies j - n < done.pending.len()
            && done.pending[j - n] == (#[trigger] pending[j]) by {
            let rest = b.pending.skip(1);
            assert(rest == done.pending.subrange(0, rest.len() as int));
            assert(b.pending[j - n + 1] == pending[j]);
            assert(rest[j - n] == pending[j]);
        }
        assert forall|j: int| 0 <= j < n && j < pending.len() implies is_exported_as(
            modules,
            initial(targets),
            done,
            (#[trigger] pending[j]).1,
            pending[j].0.unwrap(),
        ) by {
            let queued = b.queued.push(
                (next_name(modules, b), export_name.unwrap()),
            );
            if j < n - 1 {
                assert(is_exported_as(
                    modules,
                    initial(targets),
                    b,
                    pending[j].1,
                    pending[j].0.unwrap(),
                ));
                lemma_named(b.names, id, own, key_of(pending[j].1));
                let pair = (assigned_name(b.names.assigned, pending[j].1), pending[j].0.unwrap());
                if b.queued.contains(pair) {
                    let i = b.queued.index_of(pair);
                    assert(queued[i] == pair);
                }
            } else {
                assert(b.pending[0] == pending[j]);
                assert(queued[b.queued.len() as int] == (
                    next_name(modules, b),
                    export_name.unwrap(),
                ));
                if next_name(modules, b) == export_name.unwrap() && !b.emitted.contains(
                    key_of(id),
                ) {
                    assert(declares_export(
                        modules,
                        after(modules, initial(targets), (n - 1) as nat),
                        id,
                        export_name.unwrap(),
                    ));
                }
            }
        }
        if n <= pending.len() {
            assert forall|k: (usize, usize)| #[trigger] done.emitted.contains(k) implies is_pending(
                pending.take(n as int),
                k,
            ) by {
                let taken = pending.take(n as int);
                if b.emitted.contains(k) {
                    let before = pending.take(n - 1);
                    assert(is_pending(before, k));
                    let i = choose|i: int|
                        0 <= i < before.len() && key_of((#[trigger] before[i]).1) == k;
                    assert(taken[i] == before[i]);
                } else {
                    assert(b.pending[0] == pending[n - 1]);
                    assert(key_of(taken[n - 1].1) == k);
                }
            }
        }
        assert(exports_hold(modules, initial(targets), n, done));
    } else {
        let start = initial(targets);
        assert(after(modules, start, n) == start);
        assert(exports_hold(modules, start, n, start));
    }
}

/// The exports, each with its name, in their order.
proof fn lemma_pending_names(targets: Seq<(Seq<char>, Target)>, n: nat)
    requires
        n <= targets.len(),
    ensures
        forall|j: int|
            0 <= j < pending_upto(targets, n).len() ==> (#[trigger] pending_upto(
                targets,
                n,
            )[j]).0 is Some,
        forall|i: int|
            0 <= i < n ==> match (#[trigger] targets[i]).1 {
                Target::Symbol(id) => pending_upto(targets, n).contains((Some(targets[i].0), id)),
                Target::Remote { .. } => true,
            },
    decreases n,
{
    if n > 0 {
        lemma_pending_names(targets, (n - 1) as nat);
        let before = pending_upto(targets, (n - 1) as nat);
        let all = pending_upto(targets, n);
        assert forall|i: int| 0 <= i < n implies match (#[trigger] targets[i]).1 {
            Target::Symbol(id) => all.contains((Some(targets[i].0), id)),
            Target::Remote { .. } => true,
        } by {
            match targets[i].1 {
                Target::Symbol(id) => {
                    let pair = (Some(targets[i].0), id);
                    if i < n - 1 {
                        let j = before.index_of(pair);
                        assert(all[j] == pair);
                    } else {
                        assert(all[before.len() as int] == pair);
                    }
                },
                Target::Remote { .. } => {},
            }
        }
    }
}

/// A bundle keeps names and exports when its namespaces are made.
proof fn lemma_finished_exports(
    modules: Seq<ModuleInfo>,
    start: Bundle,
    b: Bundle,
    n: nat,
    id: UniqueSymbolId,
    export_name: Seq<char>,
)
    requires
        is_exported_as(modules, start, b, id, export_name),
    ensures
        is_exported_as(modules, start, namespaces_made(modules, b, n), id, export_name),
        namespaces_made(modules, b, n).queued == b.queued,
    decreases n,
{
    if n > 0 {
        lemma_finished_exports(modules, start, b, (n - 1) as nat, id, export_name);
        let before = namespaces_made(modules, b, (n - 1) as nat);
        let module_id = b.to_namespace[n - 1].0;
        let other = module_symbol(modules, module_id);
        lemma_named(
            before.names,
            other,
            own_name(symbol_at(modules, other), module_id),
            key_of(id),
        );
    }
}

/// Every export that is not of a module on the web is in the bundle: its symbol has a
/// name at the top level, and a list of exports exports it from there under the name of
/// the export, or it was declared under that name by an exported declaration.
pub proof fn law_every_export_is_in_the_bundle(
    modules: Seq<ModuleInfo>,
    targets: Seq<(Seq<char>, Target)>,
    i: int,
    id: UniqueSymbolId,
)
    requires
        modules_wf(modules),
        modules.len() <= usize::MAX,
        targets_valid(modules, targets),
        is_supported(modules, initial(targets)),
        0 <= i < targets.len(),
        targets[i].1 == Target::Symbol(id),
    ensures
        is_exported_as(
            modules,
            initial(targets),
            finished(modules, ran(modules, initial(targets))),
            id,
            targets[i].0,
        ),
{
    let start = initial(targets);
    lemma_initial(modules, targets);
    assert(after(modules, start, 0) == start);
    lemma_stops(modules, start, 0);
    let last = choose|m: nat| stops_after(modules, start, m);
    let done = after(modules, start, last);
    assert(done == ran(modules, start));
    lemma_exports_hold(modules, targets, last, last);
    lemma_pending_names(targets, targets.len());
    let j = start.pending.index_of((Some(targets[i].0), id));
    assert(start.pending[j] == (Some(targets[i].0), id));
    assert(is_exported_as(modules, start, done, id, targets[i].0));
    lemma_finished_exports(modules, start, done, done.to_namespace.len(), id, targets[i].0);
}

/// A symbol is declared as exported by the first export that stands for it: when its
/// turn comes the symbol was not emitted yet.
pub proof fn law_the_first_export_declares_its_symbol(
    modules: Seq<ModuleInfo>,
    targets: Seq<(Seq<char>, Target)>,
    j: nat,
)
    requires
        modules_wf(modules),
        modules.len() <= usize::MAX,
        targets_valid(modules, targets),
        is_supported(modules, initial(targets)),
        j < initial(targets).pending.len(),
        forall|i: int|
            0 <= i < j ==> (#[trigger] initial(targets).pending[i]).1 != initial(
                targets,
            ).pending[j as int].1,
    ensures
        ({
            let b = after(modules, initial(targets), j);
            &&& b.pending.len() > 0
            &&& b.pending[0] == initial(targets).pending[j as int]
            &&& !b.emitted.contains(key_of(b.pending[0].1))
        }),
{
    let start = initial(targets);
    lemma_initial(modules, targets);
    assert(after(modules, start, 0) == start);
    lemma_stops(modules, start, 0);
    let last = choose|m: nat| stops_after(modules, start, m);
    assert(after(modules, start, last) == ran(modules, start));
    lemma_exports_hold(modules, targets, last, last);
    if j > last {
        assert(start.pending[last as int] == after(modules, start, last).pending[0]);
    }
    lemma_exports_hold(modules, targets, last, j);
    let b = after(modules, start, j);
    assert(b.pending[0] == start.pending[j as int]);
    let k = key_of(b.pending[0].1);
    if b.emitted.contains(k) {
        let taken = start.pending.take(j as int);
        assert(is_pending(taken, k));
        let i = choose|i: int| 0 <= i < taken.len() && key_of((#[trigger] taken[i]).1) == k;
        assert(taken[i] == start.pending[i]);
        assert(start.pending[i].1 == start.pending[j as int].1);
    }
}

/// The symbols that were emitted are those that have names, and all of them were met.
spec fn emitted_holds(b: Bundle) -> bool {
    &&& forall|k: (usize, usize)| #[trigger]
        b.emitted.contains(k) ==> b.analyzed.contains(k)
    &&& forall|k: (usize, usize)|
        has_key(b.names.assigned, k) ==> #[trigger] b.emitted.contains(k)
}

proof fn lemma_emitted_holds(
    modules: Seq<ModuleInfo>,
    targets: Seq<(Seq<char>, Target)>,
    last: nat,
    n: nat,
)
    requires
        modules_wf(modules),
        targets_valid(modules, targets),
        stops_after(modules, initial(targets), last),
        !after(modules, initial(targets), last).unsupported,
        n <= last,
    ensures
        emitted_holds(after(modules, initial(targets), n)),
        bundle_ok(modules, after(modules, initial(targets), n)),
    decreases n,
{
    let start = initial(targets);
    lemma_initial(modules, targets);
    lemma_all_ok(modules, start, last, n);
    if n == 0 {
        assert(start.names.assigned.len() == 0);
    } else {
        lemma_emitted_holds(modules, targets, last, (n - 1) as nat);
        let b = after(modules, start, (n - 1) as nat);
        let done = after(modules, start, n);
        assert(!stops(b));
        if n < last {
            assert(!stops(done));
        }
        assert(has_definition(symbol_at(modules, b.pending[0].1)));
        lemma_step(modules, b);
        lemma_stepped(modules, b);
        let (_, id) = b.pending[0];
        let own = own_name(symbol_at(modules, id), id.module_id);
        assert forall|k: (usize, usize)| has_key(
            done.names.assigned,
            k,
        ) implies #[trigger] done.emitted.contains(k) by {
            if !has_key(b.names.assigned, k) {
                crate::collections::lemma_key_place(b.names.assigned, k);
                crate::collections::lemma_key_place(done.names.assigned, k);
                let p = key_place(done.names.assigned, k);
                if p < b.names.assigned.len() {
                    assert(done.names.assigned[p] == b.names.assigned[p]);
                }
            } else {
                assert(b.emitted.contains(k));
            }
        }
        assert forall|k: (usize, usize)| #[trigger] done.emitted.contains(k) implies done.analyzed.contains(
            k,
        ) by {
            assert(b.analyzed.contains(key_of(b.pending[0].1)));
            if b.emitted.contains(k) {
                assert(b.analyzed.contains(k));
            }
        }
    }
}

/// When a bundle is done every symbol that was met was emitted, and no other was.
pub proof fn law_every_symbol_is_emitted(
    modules: Seq<ModuleInfo>,
    targets: Seq<(Seq<char>, Target)>,
)
    requires
        modules_wf(modules),
        modules.len() <= usize::MAX,
        targets_valid(modules, targets),
        is_supported(modules, initial(targets)),
    ensures
        ({
            let b = finished(modules, ran(modules, initial(targets)));
            b.emitted == b.analyzed && b.pending.len() == 0
        }),
{
    let start = initial(targets);
    lemma_initial(modules, targets);
    assert(after(modules, start, 0) == start);
    lemma_stops(modules, start, 0);
    let last = choose|m: nat| stops_after(modules, start, m);
    let done = after(modules, start, last);
    assert(done == ran(modules, start));
    lemma_emitted_holds(modules, targets, last, last);
    lemma_namespaces_made(modules, done, done.to_namespace.len());
    assert forall|k: (usize, usize)| done.analyzed.contains(k) implies done.emitted.contains(k) by {
        assert(!is_pending(done.pending, k));
    }
    assert(done.emitted =~= done.analyzed);
}

/// A bundle is closed: whatever its declarations refer to in any module was emitted and
/// has a name at its top level, and so has whatever its namespaces export.
pub proof fn law_the_bundle_is_closed(
    modules: Seq<ModuleInfo>,
    targets: Seq<(Seq<char>, Target)>,
    i: int,
)
    requires
        modules_wf(modules),
        modules.len() <= usize::MAX,
        targets_valid(modules, targets),
        is_supported(modules, initial(targets)),
        0 <= i < finished(modules, ran(modules, initial(targets))).out.infos.len(),
    ensures
        ({
            let b = finished(modules, ran(modules, initial(targets)));
            let e = b.out.infos[i].1;
            &&& forall|j: int|
                0 <= j < e.mapping.len() ==> has_key(
                    b.names.assigned,
                    key_of((#[trigger] e.mapping[j]).1),
                ) && b.emitted.contains(key_of(e.mapping[j].1))
            &&& e.namespace matches Some(namespace) ==> forall|j: int|
                0 <= j < namespace.exports.len() ==> has_key(
                    b.names.assigned,
                    key_of((#[trigger] namespace.exports[j]).1),
                ) && b.emitted.contains(key_of(namespace.exports[j].1))
        }),
{
    let start = initial(targets);
    lemma_initial(modules, targets);
    assert(after(modules, start, 0) == start);
    lemma_stops(modules, start, 0);
    let last = choose|m: nat| stops_after(modules, start, m);
    let done = after(modules, start, last);
    lemma_all_ok(modules, start, last, last);
    lemma_namespaces_made(modules, done, done.to_namespace.len());
    law_every_symbol_is_emitted(modules, targets);
    let b = finished(modules, done);
    assert forall|k: (usize, usize)| #[trigger] done.analyzed.contains(k) implies has_key(
        b.names.assigned,
        k,
    ) by {
        assert(!is_pending(done.pending, k));
    }
    assert(super::bundle_proofs::info_ok(
        done.analyzed,
        done.to_namespace,
        b.out.infos[i].0,
        b.out.infos[i].1,
    ));
}

proof fn lemma_all_ok(modules: Seq<ModuleInfo>, start: Bundle, last: nat, n: nat)
    requires
        modules_wf(modules),
        bundle_ok(modules, start),
        stops_after(modules, start, last),
        n <= last,
    ensures
        bundle_ok(modules, after(modules, start, n)),
    decreases n,
{
    if n > 0 {
        lemma_all_ok(modules, start, last, (n - 1) as nat);
        assert(!stops(after(modules, start, (n - 1) as nat)));
        lemma_stepped(modules, after(modules, start, (n - 1) as nat));
    }
}

}
