//! Whether the declarations of a graph can be bundled.

use vstd::prelude::*;

use super::analyzer::{
    export_target, exports_supported, followed, resolve_paths_to_remote_path, supports_paths,
    targets_upto, DefinitionPath, Followed, NamedExport, ResolvedExport, SymbolIdOrRemoteDep,
    Target, UniqueSymbolId,
};
use super::bundle::modules_wf;
use super::bundler::targets_valid;
use super::idents::{ident_target, paths_table};
use super::root_symbol::{
    has_definition, is_symbol, ModuleExport, ModuleInfo, RootSymbol, Symbol,
};
use crate::collections::{has_key, key_place, lemma_key_place, with_entry};
use crate::specifier::is_remote_specifier;

verus! {

/// Whether what an identifier or an export stands for, if it is a symbol, is there.
pub open spec fn target_there(modules: Seq<ModuleInfo>, found: Followed) -> bool {
    match found {
        Followed::Found(target) => match target {
            Target::Symbol(id) => is_symbol(modules, id),
            Target::Remote { .. } => true,
        },
        _ => true,
    }
}

/// Whether whatever the identifiers of a symbol stand for is there.
pub open spec fn symbol_ok(modules: Seq<ModuleInfo>, symbol: Symbol) -> bool {
    forall|i: int|
        0 <= i < symbol.idents@.len() ==> target_there(
            modules,
            followed((#[trigger] symbol.idents@[i]).paths@),
        )
}

/// Whether the symbol that defines an export, if it is found, is there.
pub open spec fn module_export_ok(modules: Seq<ModuleInfo>, export: ModuleExport) -> bool {
    match export.definition {
        Some(id) => is_symbol(modules, id),
        None => true,
    }
}

/// Whether every symbol that a module refers to is there, and the module can be named.
pub open spec fn module_ok(modules: Seq<ModuleInfo>, module: ModuleInfo) -> bool {
    &&& module.module_symbol < module.symbols@.len()
    &&& has_definition(module.symbols@[module.module_symbol as int])
    &&& forall|i: int|
        0 <= i < module.exports@.len() ==> module_export_ok(modules, #[trigger] module.exports@[i])
    &&& forall|i: int|
        0 <= i < module.symbols@.len() ==> symbol_ok(modules, #[trigger] module.symbols@[i])
}

/// Whether this holds of every module.
pub open spec fn modules_ok(modules: Seq<ModuleInfo>) -> bool {
    forall|i: int| 0 <= i < modules.len() ==> module_ok(modules, #[trigger] modules[i])
}

/// Whether an export stands for a symbol that is there, or for something on the web.
pub open spec fn export_ok(modules: Seq<ModuleInfo>, export: NamedExport) -> bool {
    &&& export_target(export.name@, export.export) is Found
    &&& target_there(modules, export_target(export.name@, export.export))
}

/// Whether this holds of every export.
pub open spec fn exports_ok(modules: Seq<ModuleInfo>, exports: Seq<NamedExport>) -> bool {
    forall|i: int| 0 <= i < exports.len() ==> export_ok(modules, #[trigger] exports[i])
}

fn has_symbol(modules: &Vec<ModuleInfo>, id: UniqueSymbolId) -> (r: bool)
    ensures
        r == is_symbol(modules@, id),
{
    id.module_id < modules.len() && id.symbol_id < modules[id.module_id].symbols.len()
}

fn check_paths(modules: &Vec<ModuleInfo>, paths: &Vec<DefinitionPath>) -> (r: bool)
    ensures
        r == target_there(modules@, followed(paths@)),
{
    if !supports_paths(paths) {
        return true;
    }
    match resolve_paths_to_remote_path(paths) {
        Some(SymbolIdOrRemoteDep::Symbol(id)) => has_symbol(modules, id),
        _ => true,
    }
}

fn check_symbol(modules: &Vec<ModuleInfo>, symbol: &Symbol) -> (r: bool)
    ensures
        r == symbol_ok(modules@, *symbol),
{
    let mut i: usize = 0;
    while i < symbol.idents.len()
        invariant
            i <= symbol.idents@.len(),
            forall|j: int|
                0 <= j < i ==> target_there(
                    modules@,
                    followed((#[trigger] symbol.idents@[j]).paths@),
                ),
        decreases symbol.idents@.len() - i,
    {
        if !check_paths(modules, &symbol.idents[i].paths) {
            assert(!target_there(modules@, followed(symbol.idents@[i as int].paths@)));
            return false;
        }
        i = i + 1;
    }
    true
}

fn check_module(modules: &Vec<ModuleInfo>, module: &ModuleInfo) -> (r: bool)
    ensures
        r == module_ok(modules@, *module),
{
    if module.module_symbol >= module.symbols.len() {
        return false;
    }
    let decls = &module.symbols[module.module_symbol].decls;
    if decls.len() == 0 || !decls[0].is_definition {
        return false;
    }
    let mut i: usize = 0;
    while i < module.exports.len()
        invariant
            i <= module.exports@.len(),
            forall|j: int|
                0 <= j < i ==> module_export_ok(modules@, #[trigger] module.exports@[j]),
        decreases module.exports@.len() - i,
    {
        let there: bool = match module.exports[i].definition {
            Some(id) => has_symbol(modules, id),
            None => true,
        };
        if !there {
            assert(!module_export_ok(modules@, module.exports@[i as int]));
            return false;
        }
        i = i + 1;
    }
    let mut i: usize = 0;
    while i < module.symbols.len()
        invariant
            i <= module.symbols@.len(),
            forall|j: int| 0 <= j < i ==> symbol_ok(modules@, #[trigger] module.symbols@[j]),
        decreases module.symbols@.len() - i,
    {
        if !check_symbol(modules, &module.symbols[i]) {
            assert(!symbol_ok(modules@, module.symbols@[i as int]));
            return false;
        }
        i = i + 1;
    }
    true
}

fn check_modules(modules: &Vec<ModuleInfo>) -> (r: bool)
    ensures
        r == modules_ok(modules@),
{
    let mut i: usize = 0;
    while i < modules.len()
        invariant
            i <= modules@.len(),
            forall|j: int| 0 <= j < i ==> module_ok(modules@, #[trigger] modules@[j]),
        decreases modules@.len() - i,
    {
        if !check_module(modules, &modules[i]) {
            assert(!module_ok(modules@, modules@[i as int]));
            return false;
        }
        i = i + 1;
    }
    true
}

fn check_export(modules: &Vec<ModuleInfo>, name: &str, export: &ResolvedExport) -> (r: bool)
    ensures
        r == (export_target(name@, *export) is Found && target_there(
            modules@,
            export_target(name@, *export),
        )),
    decreases export,
{
    match export {
        ResolvedExport::Export(paths) => supports_paths(paths) && match resolve_paths_to_remote_path(
            paths,
        ) {
            Some(SymbolIdOrRemoteDep::Symbol(id)) => has_symbol(modules, id),
            Some(_) => true,
            None => false,
        },
        ResolvedExport::ReExportAllPath(path) => is_remote_specifier(&path.resolved_module)
            || check_export(modules, name, &*path.next),
    }
}

proof fn lemma_modules_ok(modules: Seq<ModuleInfo>)
    requires
        modules_ok(modules),
    ensures
        modules_wf(modules),
{
    assert forall|m: int, i: int|
        #![trigger modules[m].exports@[i]]
        0 <= m < modules.len() && 0 <= i
            < modules[m].exports@.len() implies match modules[m].exports@[i].definition {
        Some(id) => is_symbol(modules, id),
        None => true,
    } by {
        assert(module_ok(modules, modules[m]));
        assert(module_export_ok(modules, modules[m].exports@[i]));
    }
    assert forall|m: int, k: int, id: (Seq<char>, u32)|
        #![trigger ident_target(modules[m].symbols@[k], id)]
        0 <= m < modules.len() && 0 <= k < modules[m].symbols@.len() implies match ident_target(
        modules[m].symbols@[k],
        id,
    ) {
        Followed::Found(target) => match target {
            Target::Symbol(to) => is_symbol(modules, to),
            Target::Remote { .. } => true,
        },
        _ => true,
    } by {
        let symbol = modules[m].symbols@[k];
        assert(module_ok(modules, modules[m]));
        assert(symbol_ok(modules, symbol));
        let table = paths_table(symbol.idents@);
        lemma_key_place(table, id);
        if has_key(table, id) {
            let p = key_place(table, id);
            assert(target_there(modules, followed(symbol.idents@[p].paths@)));
        }
    }
    assert forall|m: int| 0 <= m < modules.len() implies (#[trigger] modules[m]).module_symbol
        < modules[m].symbols@.len() && has_definition(
        modules[m].symbols@[modules[m].module_symbol as int],
    ) by {
        assert(module_ok(modules, modules[m]));
    }
}

proof fn lemma_exports_ok(modules: Seq<ModuleInfo>, exports: Seq<NamedExport>, n: nat)
    requires
        exports_ok(modules, exports),
        n <= exports.len(),
    ensures
        targets_valid(modules, targets_upto(exports, n)),
    decreases n,
{
    if n > 0 {
        lemma_exports_ok(modules, exports, (n - 1) as nat);
        let e = exports[n - 1];
        assert(export_ok(modules, e));
        let before = targets_upto(exports, (n - 1) as nat);
        match export_target(e.name@, e.export) {
            Followed::Found(target) => {
                lemma_key_place(before, e.name@);
                let all = with_entry(before, e.name@, target);
                assert forall|i: int| 0 <= i < all.len() implies match (#[trigger] all[i]).1 {
                    Target::Symbol(id) => is_symbol(modules, id),
                    Target::Remote { .. } => true,
                } by {
                    if i < before.len() && i != key_place(before, e.name@) {
                        assert(all[i] == before[i]);
                    }
                }
            },
            _ => {},
        }
    }
}

/// Whether the declarations of what a module exports can be put into a bundle:
/// whatever the exports, and the identifiers of the symbols, stand for is there.
pub fn can_pack(root_symbol: &RootSymbol, exports: &Vec<NamedExport>) -> (r: bool)
    ensures
        r == (modules_ok(root_symbol.modules@) && exports_ok(root_symbol.modules@, exports@)),
        r ==> modules_wf(root_symbol.modules@) && exports_supported(exports@) && targets_valid(
            root_symbol.modules@,
            targets_upto(exports@, exports@.len()),
        ),
{
    if !check_modules(&root_symbol.modules) {
        return false;
    }
    let mut i: usize = 0;
    while i < exports.len()
        invariant
            i <= exports@.len(),
            forall|j: int|
                0 <= j < i ==> export_ok(root_symbol.modules@, #[trigger] exports@[j]),
        decreases exports@.len() - i,
    {
        if !check_export(&root_symbol.modules, exports[i].name.as_str(), &exports[i].export) {
            assert(!export_ok(root_symbol.modules@, exports@[i as int]));
            return false;
        }
        i = i + 1;
    }
    proof {
        lemma_modules_ok(root_symbol.modules@);
        lemma_exports_ok(root_symbol.modules@, exports@, exports@.len());
        assert forall|j: int| 0 <= j < exports@.len() implies export_target(
            (#[trigger] exports@[j]).name@,
            exports@[j].export,
        ) is Found by {
            assert(export_ok(root_symbol.modules@, exports@[j]));
        }
    }
    true
}

}
