//! Traces which symbols of which modules are part of the public API of a root
//! module.

use vstd::prelude::*;

use super::binder::{
    dep_name, Dep, FileDepName, ModuleId, ModuleSymbol, Symbol, SymbolId, UniqueSymbol,
};
use crate::collections::{
    distinct_keys, has_key, key_place, lemma_key_place, lemma_key_place_is, with_entry, TextMap,
};
use crate::pack_js::analyze::{dependencies_of, find_dependency, resolved, resolves, Dependency};
use crate::specifier::ModuleSpecifier;
use crate::syntax::{Id, SourceRange};
use crate::text::{same_text, texts};

verus! {

/// Which exports of a module are traced.
#[derive(Debug)]
pub enum ExportsToTrace {
    /// All of them.
    AllWithDefault,
    /// All but the default export.
    Star,
    /// Those with the names.
    Named(Vec<String>),
}

/// What an [`ExportsToTrace`] stands for.
pub enum Wanted {
    AllWithDefault,
    Star,
    Named(Seq<Seq<char>>),
}

impl ExportsToTrace {
    pub open spec fn view(&self) -> Wanted {
        match self {
            ExportsToTrace::AllWithDefault => Wanted::AllWithDefault,
            ExportsToTrace::Star => Wanted::Star,
            ExportsToTrace::Named(names) => Wanted::Named(texts(names@)),
        }
    }

    /// The exports that a dependency on a file asks for.
    pub fn from_file_dep_name(dep_name: &FileDepName) -> (r: ExportsToTrace)
        ensures
            r@ == wanted_by(super::binder::dep_name(*dep_name)),
    {
        match dep_name {
            FileDepName::All => ExportsToTrace::Star,
            FileDepName::Name(value) => {
                let mut names: Vec<String> = Vec::new();
                names.push(value.clone());
                assert(texts(names@) =~= seq![value@]);
                ExportsToTrace::Named(names)
            },
        }
    }

    /// Traces what another dependency on the file asks for too.
    pub fn add(&mut self, name: &FileDepName)
        ensures
            final(self)@ == wanted_too(old(self)@, dep_name(*name)),
    {
        match name {
            FileDepName::All => {
                if !matches!(*self, ExportsToTrace::Star | ExportsToTrace::AllWithDefault) {
                    *self = ExportsToTrace::Star;
                }
            },
            FileDepName::Name(name) => {
                if let ExportsToTrace::Named(names) = self {
                    let ghost before = texts(names@);
                    names.push(name.clone());
                    assert(texts(names@) =~= before.push(name@));
                }
            },
        }
    }
}

/// The exports that a dependency on a name, or on everything, asks for.
pub open spec fn wanted_by(name: Option<Seq<char>>) -> Wanted {
    match name {
        None => Wanted::Star,
        Some(name) => Wanted::Named(seq![name]),
    }
}

/// The exports that are traced after another dependency asks for some. Whoever
/// wants all wants no single names.
pub open spec fn wanted_too(wanted: Wanted, name: Option<Seq<char>>) -> Wanted {
    match (wanted, name) {
        (Wanted::Named(names), Some(name)) => Wanted::Named(names.push(name)),
        (Wanted::Named(_), None) => Wanted::Star,
        _ => wanted,
    }
}

/// A module of the graph that is traced: what its names resolve to, and its
/// symbols, or why it has none.
pub struct TraceModule {
    pub dependencies: Vec<Dependency>,
    pub symbols: ModuleSymbol,
    pub diagnostic: Option<String>,
}

/// What tracing does not change in a module.
#[verifier::ext_equal]
pub struct Info {
    pub dependencies: Seq<(Seq<char>, Seq<char>)>,
    pub diagnostic: Option<Seq<char>>,
    pub exports: Seq<(Seq<char>, SymbolId)>,
    pub default_export: Option<SymbolId>,
    pub re_exports: Seq<Seq<char>>,
    pub ids: Seq<((Seq<char>, u32), SymbolId)>,
    pub deps: Seq<Set<(Seq<char>, u32)>>,
    pub file_deps: Seq<Option<Dep>>,
    /// Where the symbols are declared.
    pub decls: Seq<Seq<SourceRange>>,
    pub module_id: ModuleId,
}

impl TraceModule {
    /// What tracing does not change.
    pub open spec fn info(&self) -> Info {
        Info {
            dependencies: dependencies_of(self.dependencies@),
            diagnostic: match self.diagnostic {
                Some(message) => Some(message@),
                None => None,
            },
            exports: self.symbols@.exports,
            default_export: self.symbols.default_export_symbol_id,
            re_exports: texts(self.symbols.re_exports@),
            ids: self.symbols@.ids,
            deps: Seq::new(self.symbols@.symbols.len(), |i: int| self.symbols@.symbols[i].deps),
            file_deps: Seq::new(
                self.symbols@.symbols.len(),
                |i: int| self.symbols@.symbols[i].file_dep,
            ),
            decls: Seq::new(self.symbols@.symbols.len(), |i: int| self.symbols@.symbols[i].decls),
            module_id: self.symbols.module_id,
        }
    }
}

/// What tracing does not change in the modules of a graph.
pub open spec fn infos(s: Seq<(Seq<char>, TraceModule)>) -> Seq<(Seq<char>, Info)> {
    Seq::new(s.len(), |i: int| (s[i].0, s[i].1.info()))
}

/// A module of the graph.
pub open spec fn info_of(g: Seq<(Seq<char>, Info)>, specifier: Seq<char>) -> Info {
    g[key_place(g, specifier)].1
}

/// Whether the graph holds every module to which a name resolves, and every
/// symbol of an export.
pub open spec fn graph_wf(g: Seq<(Seq<char>, Info)>) -> bool {
    &&& distinct_keys(g)
    &&& forall|i: int, j: int|
        #![trigger g[i].1.dependencies[j]]
        0 <= i < g.len() && 0 <= j < g[i].1.dependencies.len() ==> has_key(
            g,
            g[i].1.dependencies[j].1,
        )
    &&& forall|i: int, j: int|
        #![trigger g[i].1.exports[j]]
        0 <= i < g.len() && 0 <= j < g[i].1.exports.len() ==> g[i].1.exports[j].1.0
            < g[i].1.deps.len()
    &&& forall|i: int, j: int|
        #![trigger g[i].1.ids[j]]
        0 <= i < g.len() && 0 <= j < g[i].1.ids.len() ==> g[i].1.ids[j].1.0 < g[i].1.deps.len()
    &&& forall|i: int|
        0 <= i < g.len() && (#[trigger] g[i]).1.default_export is Some
            ==> g[i].1.default_export.unwrap().0 < g[i].1.deps.len()
    &&& forall|i: int|
        0 <= i < g.len() ==> (#[trigger] g[i]).1.deps.len() == g[i].1.file_deps.len()
}

/// An export that was found: where it is declared, and its name.
#[derive(Debug)]
pub struct TracedExport {
    pub specifier: ModuleSpecifier,
    pub module_id: ModuleId,
    pub name: String,
    pub symbol_id: SymbolId,
}

/// What a [`TracedExport`] stands for.
pub struct Found {
    pub specifier: Seq<char>,
    pub module_id: int,
    pub name: Seq<char>,
    pub symbol_id: SymbolId,
}

impl TracedExport {
    pub open spec fn view(&self) -> Found {
        Found {
            specifier: self.specifier@,
            module_id: self.module_id.0 as int,
            name: self.name@,
            symbol_id: self.symbol_id,
        }
    }
}

/// What a sequence of exports stands for.
pub open spec fn found_of(s: Seq<TracedExport>) -> Seq<Found> {
    Seq::new(s.len(), |i: int| s[i]@)
}

broadcast proof fn lemma_found_push(s: Seq<TracedExport>, e: TracedExport)
    ensures
        #[trigger] found_of(s.push(e)) == found_of(s).push(e@),
{
    assert(found_of(s.push(e)) =~= found_of(s).push(e@));
}

/// Why looking for exports stops: a module could not be analyzed, or more modules than
/// may be export everything of each other in turn.
pub enum Failure {
    Diagnostic(Seq<char>),
    TooDeep,
}

/// What looking for exports comes to: the modules that were analyzed by then, in
/// order, the exports, and why it stopped, if it did.
pub struct Outcome {
    pub analyzed: Seq<(Seq<char>, ())>,
    pub found: Seq<Found>,
    pub failure: Option<Failure>,
}

/// Whether an export with the name was found.
pub open spec fn has_name(found: Seq<Found>, name: Seq<char>) -> bool {
    exists|i: int| 0 <= i < found.len() && (#[trigger] found[i]).name == name
}

/// The default export of a module.
pub open spec fn default_symbol(info: Info) -> Option<SymbolId> {
    if info.default_export is Some {
        info.default_export
    } else if has_key(info.exports, "default"@) {
        Some(info.exports[key_place(info.exports, "default"@)].1)
    } else {
        None
    }
}

/// The first `n` exports of a module that have names of their own.
pub open spec fn own_upto(
    exports: Seq<(Seq<char>, SymbolId)>,
    n: nat,
    specifier: Seq<char>,
    module_id: int,
) -> Seq<Found>
    decreases n,
{
    if n == 0 {
        Seq::empty()
    } else if exports[n - 1].0 != "default"@ {
        own_upto(exports, (n - 1) as nat, specifier, module_id).push(
            Found { specifier, module_id, name: exports[n - 1].0, symbol_id: exports[n - 1].1 },
        )
    } else {
        own_upto(exports, (n - 1) as nat, specifier, module_id)
    }
}

/// The exports with those of the first `n` of another module whose names are new.
pub open spec fn joined(found: Seq<Found>, inner: Seq<Found>, n: nat) -> Seq<Found>
    decreases n,
{
    if n == 0 {
        found
    } else {
        let before = joined(found, inner, (n - 1) as nat);
        if inner[n - 1].name != "default"@ && !has_name(before, inner[n - 1].name) {
            before.push(inner[n - 1])
        } else {
            before
        }
    }
}

/// What looking for exports of a module comes to, where at most `depth` modules may be
/// looked into each because of the one before.
pub open spec fn outcome(
    g: Seq<(Seq<char>, Info)>,
    depth: nat,
    analyzed: Seq<(Seq<char>, ())>,
    specifier: Seq<char>,
    wanted: Wanted,
) -> Outcome
    decreases depth, 0nat, 0nat,
{
    let info = info_of(g, specifier);
    if depth == 0 {
        Outcome { analyzed, found: Seq::empty(), failure: Some(Failure::TooDeep) }
    } else if !has_key(analyzed, specifier) && info.diagnostic is Some {
        Outcome {
            analyzed,
            found: Seq::empty(),
            failure: Some(Failure::Diagnostic(info.diagnostic.unwrap())),
        }
    } else {
        let below = (depth - 1) as nat;
        let now = with_entry(analyzed, specifier, ());
        let module_id = key_place(now, specifier);
        match wanted {
            Wanted::Named(names) => names_upto(
                g,
                below,
                specifier,
                names,
                names.len(),
                Outcome { analyzed: now, found: Seq::empty(), failure: None },
                module_id,
            ),
            _ => {
                let first = match default_symbol(info) {
                    Some(symbol_id) => if wanted is AllWithDefault {
                        seq![Found { specifier, module_id, name: "default"@, symbol_id }]
                    } else {
                        Seq::empty()
                    },
                    None => Seq::empty(),
                };
                stars_upto(
                    g,
                    below,
                    specifier,
                    info.re_exports.len(),
                    Outcome {
                        analyzed: now,
                        found: first + own_upto(
                            info.exports,
                            info.exports.len(),
                            specifier,
                            module_id,
                        ),
                        failure: None,
                    },
                )
            },
        }
    }
}

/// The outcome with the exports of the first `n` modules all of whose exports the
/// module exports. The depth is what is left for them.
pub open spec fn stars_upto(
    g: Seq<(Seq<char>, Info)>,
    depth: nat,
    specifier: Seq<char>,
    n: nat,
    start: Outcome,
) -> Outcome
    decreases depth, 1nat, n,
{
    if n == 0 {
        start
    } else {
        let before = stars_upto(g, depth, specifier, (n - 1) as nat, start);
        let info = info_of(g, specifier);
        let text = info.re_exports[n - 1];
        let to = resolved(info.dependencies, text);
        if before.failure is Some || !resolves(info.dependencies, text) {
            before
        } else {
            let inner = outcome(g, depth, before.analyzed, to, Wanted::Star);
            if inner.failure is Some {
                Outcome { analyzed: inner.analyzed, failure: inner.failure, ..before }
            } else {
                Outcome {
                    analyzed: inner.analyzed,
                    found: joined(before.found, inner.found, inner.found.len()),
                    failure: None,
                }
            }
        }
    }
}

/// The outcome with the exports that have the first `n` names.
pub open spec fn names_upto(
    g: Seq<(Seq<char>, Info)>,
    depth: nat,
    specifier: Seq<char>,
    names: Seq<Seq<char>>,
    n: nat,
    start: Outcome,
    module_id: int,
) -> Outcome
    decreases depth, 3nat, n,
{
    if n == 0 {
        start
    } else {
        let before = names_upto(g, depth, specifier, names, (n - 1) as nat, start, module_id);
        let info = info_of(g, specifier);
        let name = names[n - 1];
        if before.failure is Some {
            before
        } else if name == "default"@ && info.default_export is Some {
            Outcome {
                found: before.found.push(
                    Found {
                        specifier,
                        module_id,
                        name,
                        symbol_id: info.default_export.unwrap(),
                    },
                ),
                ..before
            }
        } else if has_key(info.exports, name) {
            Outcome {
                found: before.found.push(
                    Found {
                        specifier,
                        module_id,
                        name,
                        symbol_id: info.exports[key_place(info.exports, name)].1,
                    },
                ),
                ..before
            }
        } else if name != "default"@ {
            let inner = first_star(g, depth, specifier, name, 0, before.analyzed);
            if inner.failure is Some {
                Outcome { analyzed: inner.analyzed, failure: inner.failure, ..before }
            } else {
                Outcome {
                    analyzed: inner.analyzed,
                    found: before.found + inner.found,
                    failure: None,
                }
            }
        } else {
            before
        }
    }
}

/// The export with a name of the first module, from `from` on, that has it, of
/// those all of whose exports the module exports.
pub open spec fn first_star(
    g: Seq<(Seq<char>, Info)>,
    depth: nat,
    specifier: Seq<char>,
    name: Seq<char>,
    from: int,
    analyzed: Seq<(Seq<char>, ())>,
) -> Outcome
    decreases depth, 2nat, info_of(g, specifier).re_exports.len() - from,
{
    let info = info_of(g, specifier);
    if from >= info.re_exports.len() {
        Outcome { analyzed, found: Seq::empty(), failure: None }
    } else {
        let text = info.re_exports[from];
        let to = resolved(info.dependencies, text);
        if !resolves(info.dependencies, text) {
            first_star(g, depth, specifier, name, from + 1, analyzed)
        } else {
            let inner = outcome(g, depth, analyzed, to, Wanted::Named(seq![name]));
            if inner.failure is Some {
                inner
            } else if inner.found.len() > 0 {
                Outcome { found: seq![inner.found[0]], ..inner }
            } else {
                first_star(g, depth, specifier, name, from + 1, inner.analyzed)
            }
        }
    }
}

/// What looking for exports of a module comes to. A search that goes through more
/// modules than there are goes round in a circle.
pub open spec fn exports_found(
    g: Seq<(Seq<char>, Info)>,
    analyzed: Seq<(Seq<char>, ())>,
    specifier: Seq<char>,
    wanted: Wanted,
) -> Outcome {
    outcome(g, g.len(), analyzed, specifier, wanted)
}

/// Whether looking for exports of a module comes to an end: it does not go round in a
/// circle.
pub open spec fn ends(
    g: Seq<(Seq<char>, Info)>,
    analyzed: Seq<(Seq<char>, ())>,
    specifier: Seq<char>,
    wanted: Wanted,
) -> bool {
    exports_found(g, analyzed, specifier, wanted).failure != Some(Failure::TooDeep)
}

/// Whether a graph of modules can be traced.
pub open spec fn traceable(graph: TextMap<TraceModule>) -> bool {
    &&& graph.wf()
    &&& graph_wf(infos(graph@))
    &&& forall|i: int| 0 <= i < graph@.len() ==> (#[trigger] graph@[i]).1.symbols.wf()
}

proof fn lemma_place_same(graph: TextMap<TraceModule>, key: Seq<char>)
    ensures
        key_place(graph@, key) == key_place(infos(graph@), key),
        has_key(graph@, key) == has_key(infos(graph@), key),
        0 <= key_place(graph@, key) <= graph@.len(),
        has_key(graph@, key) ==> graph@[key_place(graph@, key)].1.info() == info_of(
            infos(graph@),
            key,
        ),
{
    crate::collections::lemma_key_place_same(graph@, infos(graph@), key);
    lemma_key_place(graph@, key);
}

fn found_name(found: &Vec<TracedExport>, name: &str) -> (r: bool)
    ensures
        r == has_name(found_of(found@), name@),
{
    let mut i: usize = 0;
    while i < found.len()
        invariant
            i <= found@.len(),
            forall|j: int| 0 <= j < i ==> (#[trigger] found_of(found@)[j]).name != name@,
        decreases found@.len() - i,
    {
        assert(found_of(found@)[i as int] == found@[i as int]@);
        if same_text(found[i].name.as_str(), name) {
            assert(found_of(found@)[i as int].name == name@);
            return true;
        }
        i = i + 1;
    }
    false
}

impl TracedExport {
    fn dup(&self) -> (r: TracedExport)
        ensures
            r@ == self@,
    {
        TracedExport {
            specifier: self.specifier.dup(),
            module_id: self.module_id,
            name: self.name.clone(),
            symbol_id: self.symbol_id,
        }
    }
}

/// Notes that a module is analyzed, and gives its number.
fn analyze(
    graph: &TextMap<TraceModule>,
    analyzed: &mut TextMap<()>,
    specifier: &ModuleSpecifier,
) -> (r: Result<ModuleId, String>)
    requires
        graph.wf(),
        old(analyzed).wf(),
        has_key(infos(graph@), specifier@),
    ensures
        final(analyzed).wf(),
        match r {
            Ok(id) => {
                &&& has_key(old(analyzed)@, specifier@) || info_of(
                    infos(graph@),
                    specifier@,
                ).diagnostic is None
                &&& final(analyzed)@ == with_entry(old(analyzed)@, specifier@, ())
                &&& id.0 == key_place(final(analyzed)@, specifier@)
            },
            Err(message) => {
                &&& !has_key(old(analyzed)@, specifier@)
                &&& info_of(infos(graph@), specifier@).diagnostic == Some(message@)
                &&& final(analyzed)@ == old(analyzed)@
            },
        },
{
    let ghost before = analyzed@;
    proof {
        lemma_place_same(*graph, specifier@);
        lemma_key_place(before, specifier@);
    }
    match analyzed.place(specifier.text.as_str()) {
        Some(i) => {
            assert(before[i as int].1 == ());
            assert(with_entry(before, specifier@, ()) =~= before);
            Ok(ModuleId(i))
        },
        None => {
            let module: &TraceModule = graph.get(specifier.text.as_str()).unwrap();
            match &module.diagnostic {
                Some(message) => Err(message.clone()),
                None => {
                    let id: usize = analyzed.len();
                    analyzed.insert(specifier.text.clone(), ());
                    proof {
                        analyzed.lemma_distinct();
                        assert(analyzed@[id as int].0 == specifier@);
                        lemma_key_place_is(analyzed@, id as int);
                    }
                    Ok(ModuleId(id))
                },
            }
        },
    }
}

/// Why looking for exports stops.
enum Stop {
    Diagnostic(String),
    TooDeep,
}

impl Stop {
    spec fn view(&self) -> Failure {
        match self {
            Stop::Diagnostic(message) => Failure::Diagnostic(message@),
            Stop::TooDeep => Failure::TooDeep,
        }
    }
}

/// Looks for exports of a module, there and in the modules all of whose exports it
/// exports. At most `depth` modules are looked into each because of the one before.
fn search_exports(
    graph: &TextMap<TraceModule>,
    analyzed: &mut TextMap<()>,
    specifier: &ModuleSpecifier,
    exports_to_trace: &ExportsToTrace,
    depth: usize,
) -> (r: Result<Vec<TracedExport>, Stop>)
    requires
        traceable(*graph),
        old(analyzed).wf(),
        has_key(infos(graph@), specifier@),
    ensures
        final(analyzed).wf(),
        ({
            let out = outcome(
                infos(graph@),
                depth as nat,
                old(analyzed)@,
                specifier@,
                exports_to_trace@,
            );
            &&& final(analyzed)@ == out.analyzed
            &&& match r {
                Ok(found) => out.failure is None && found_of(found@) == out.found,
                Err(stop) => out.failure == Some(stop@),
            }
        }),
    decreases depth,
{
    if depth == 0 {
        return Err(Stop::TooDeep);
    }
    let below: usize = depth - 1;
    let ghost g = infos(graph@);
    let ghost info = info_of(g, specifier@);
    proof {
        lemma_place_same(*graph, specifier@);
    }
    let module: &TraceModule = graph.get(specifier.text.as_str()).unwrap();
    let module_id: ModuleId = match analyze(graph, analyzed, specifier) {
        Ok(id) => id,
        Err(message) => {
            return Err(Stop::Diagnostic(message));
        },
    };
    let symbols: &ModuleSymbol = &module.symbols;
    assert(graph@[key_place(graph@, specifier@)].1.symbols.wf());
    let mut result: Vec<TracedExport> = Vec::new();
    assert(found_of(result@) =~= Seq::<Found>::empty());
    match exports_to_trace {
        ExportsToTrace::Named(names) => {
            let ghost all = texts(names@);
            let ghost start = Outcome {
                analyzed: analyzed@,
                found: Seq::empty(),
                failure: None,
            };
            let ghost id = module_id.0 as int;
            let mut i: usize = 0;
            while i < names.len()
                invariant
                    i <= names@.len(),
                    all == texts(names@),
                    traceable(*graph),
                    g == infos(graph@),
                    depth == below + 1,
                    has_key(g, specifier@),
                    info == info_of(g, specifier@),
                    info == module.info(),
                    *symbols == module.symbols,
                    symbols.wf(),
                    analyzed.wf(),
                    id == module_id.0,
                    exports_to_trace@ == Wanted::Named(all),
                    outcome(g, depth as nat, old(analyzed)@, specifier@, exports_to_trace@)
                        == names_upto(g, below as nat, specifier@, all, all.len(), start, id),
                    ({
                        let so_far = names_upto(
                            g,
                            below as nat,
                            specifier@,
                            all,
                            i as nat,
                            start,
                            id,
                        );
                        &&& so_far.failure is None
                        &&& so_far.analyzed == analyzed@
                        &&& so_far.found == found_of(result@)
                    }),
                decreases names@.len() - i,
            {
                broadcast use lemma_found_push;

                let name: &String = &names[i];
                assert(all[i as int] == name@);
                let ghost earlier = names_upto(g, below as nat, specifier@, all, i as nat, start, id);
                let is_default: bool = same_text(name.as_str(), "default");
                if is_default && symbols.default_export_symbol_id.is_some() {
                    result.push(
                        TracedExport {
                            specifier: specifier.dup(),
                            module_id,
                            name: name.clone(),
                            symbol_id: symbols.default_export_symbol_id.unwrap(),
                        },
                    );
                } else {
                    match symbols.export_symbol_id(name.as_str()) {
                        Some(symbol_id) => {
                            result.push(
                                TracedExport {
                                    specifier: specifier.dup(),
                                    module_id,
                                    name: name.clone(),
                                    symbol_id,
                                },
                            );
                        },
                        None => if !is_default {
                            let ghost first = first_star(
                                g,
                                below as nat,
                                specifier@,
                                name@,
                                0,
                                analyzed@,
                            );
                            let mut found_one: bool = false;
                            let ghost before = found_of(result@);
                            let mut j: usize = 0;
                            while j < symbols.re_exports.len() && !found_one
                                invariant
                                    j <= symbols.re_exports@.len(),
                                    traceable(*graph),
                                    g == infos(graph@),
                    depth == below + 1,
                                    has_key(g, specifier@),
                                    info == info_of(g, specifier@),
                                    info == module.info(),
                                    *symbols == module.symbols,
                                    analyzed.wf(),
                                    !found_one ==> found_of(result@) == before && first
                                        == first_star(
                                        g,
                                        below as nat,
                                        specifier@,
                                        name@,
                                        j as int,
                                        analyzed@,
                                    ),
                                    found_one ==> first.failure is None && first.analyzed
                                        == analyzed@ && found_of(result@) == before + first.found,
                                    earlier.failure is None,
                                    earlier.found == before,
                                    ({
                                        let so_far = names_upto(
                                            g,
                                            below as nat,
                                            specifier@,
                                            all,
                                            (i + 1) as nat,
                                            start,
                                            id,
                                        );
                                        &&& so_far.analyzed == first.analyzed
                                        &&& so_far.failure == first.failure
                                        &&& first.failure is None ==> so_far.found == before
                                            + first.found
                                    }),
                                    all == texts(names@),
                                    i < names@.len(),
                                    exports_to_trace@ == Wanted::Named(all),
                                    outcome(
                                        g,
                                        depth as nat,
                                        old(analyzed)@,
                                        specifier@,
                                        exports_to_trace@,
                                    ) == names_upto(
                                        g,
                                        below as nat,
                                        specifier@,
                                        all,
                                        all.len(),
                                        start,
                                        id,
                                    ),
                                decreases symbols.re_exports@.len() - j,
                            {
                                let text: &String = &symbols.re_exports[j];
                                assert(info.re_exports[j as int] == text@);
                                match find_dependency(&module.dependencies, text.as_str()) {
                                    Some(to) => {
                                        proof {
                                            lemma_target(g, specifier@, text@);
                                        }
                                        let mut wanted: Vec<String> = Vec::new();
                                        wanted.push(name.clone());
                                        assert(texts(wanted@) =~= seq![name@]);
                                        match search_exports(
                                            graph,
                                            analyzed,
                                            to,
                                            &ExportsToTrace::Named(wanted),
                                            below,
                                        ) {
                                            Ok(inner) => {
                                                if inner.len() > 0 {
                                                    let ghost e = found_of(inner@)[0];
                                                    assert(e == inner@[0]@);
                                                    result.push(inner[0].dup());
                                                    found_one = true;
                                                    assert(found_of(result@) =~= before
                                                        + first.found) by {
                                                        broadcast use lemma_found_push;

                                                    }
                                                } else {
                                                    assert(found_of(inner@).len() == 0);
                                                }
                                            },
                                            Err(stop) => {
                                                proof {
                                                    lemma_names_stay_failed(
                                                        g,
                                                        below as nat,
                                                        specifier@,
                                                        all,
                                                        (i + 1) as nat,
                                                        all.len(),
                                                        start,
                                                        id,
                                                    );
                                                }
                                                return Err(stop);
                                            },
                                        }
                                    },
                                    None => {},
                                }
                                j = j + 1;
                            }
                            assert(found_of(result@) =~= before + first.found);
                        },
                    }
                }
                i = i + 1;
            }
        },
        _ => {
            let with_default: bool = matches!(exports_to_trace, ExportsToTrace::AllWithDefault);
            if with_default {
                let maybe_symbol_id: Option<SymbolId> = match symbols.default_export_symbol_id {
                    Some(id) => Some(id),
                    None => symbols.export_symbol_id("default"),
                };
                match maybe_symbol_id {
                    Some(symbol_id) => {
                        result.push(
                            TracedExport {
                                specifier: specifier.dup(),
                                module_id,
                                name: "default".to_owned(),
                                symbol_id,
                            },
                        );
                    },
                    None => {},
                }
            }
            let ghost first = found_of(result@);
            let ghost id = module_id.0 as int;
            let mut i: usize = 0;
            assert(found_of(result@) =~= first + own_upto(info.exports, 0, specifier@, id));
            while i < symbols.exports.len()
                invariant
                    symbols.wf(),
                    i <= symbols.exports@.len(),
                    info.exports == symbols.exports@,
                    id == module_id.0,
                    found_of(result@) == first + own_upto(
                        info.exports,
                        i as nat,
                        specifier@,
                        id,
                    ),
                decreases symbols.exports@.len() - i,
            {
                broadcast use lemma_found_push;

                let name: &String = symbols.exports.key_at(i);
                if !same_text(name.as_str(), "default") {
                    result.push(
                        TracedExport {
                            specifier: specifier.dup(),
                            module_id,
                            name: name.clone(),
                            symbol_id: *symbols.exports.value_at(i),
                        },
                    );
                }
                i = i + 1;
                assert(found_of(result@) =~= first + own_upto(
                    info.exports,
                    i as nat,
                    specifier@,
                    id,
                ));
            }
            let ghost start = Outcome {
                analyzed: analyzed@,
                found: found_of(result@),
                failure: None,
            };
            proof {
                assert(first =~= match default_symbol(info) {
                    Some(symbol_id) => if exports_to_trace@ is AllWithDefault {
                        seq![
                            Found {
                                specifier: specifier@,
                                module_id: id,
                                name: "default"@,
                                symbol_id,
                            },
                        ]
                    } else {
                        Seq::empty()
                    },
                    None => Seq::empty(),
                });
                assert(outcome(g, depth as nat, old(analyzed)@, specifier@, exports_to_trace@)
                    == stars_upto(g, below as nat, specifier@, info.re_exports.len(), start));
            }
            let mut i: usize = 0;
            while i < symbols.re_exports.len()
                invariant
                    i <= symbols.re_exports@.len(),
                    traceable(*graph),
                    g == infos(graph@),
                    depth == below + 1,
                    has_key(g, specifier@),
                    info == info_of(g, specifier@),
                    info == module.info(),
                    *symbols == module.symbols,
                    analyzed.wf(),
                    outcome(g, depth as nat, old(analyzed)@, specifier@, exports_to_trace@)
                        == stars_upto(g, below as nat, specifier@, info.re_exports.len(), start),
                    ({
                        let so_far = stars_upto(g, below as nat, specifier@, i as nat, start);
                        &&& so_far.failure is None
                        &&& so_far.analyzed == analyzed@
                        &&& so_far.found == found_of(result@)
                    }),
                decreases symbols.re_exports@.len() - i,
            {
                let text: &String = &symbols.re_exports[i];
                assert(info.re_exports[i as int] == text@);
                match find_dependency(&module.dependencies, text.as_str()) {
                    Some(to) => {
                        proof {
                            lemma_target(g, specifier@, text@);
                        }
                        match search_exports(
                            graph,
                            analyzed,
                            to,
                            &ExportsToTrace::Star,
                            below,
                        ) {
                            Ok(inner) => {
                                let ghost before = found_of(result@);
                                let ghost all = found_of(inner@);
                                let mut j: usize = 0;
                                while j < inner.len()
                                    invariant
                                        j <= inner@.len(),
                                        all == found_of(inner@),
                                        found_of(result@) == joined(before, all, j as nat),
                                    decreases inner@.len() - j,
                                {
                                    broadcast use lemma_found_push;

                                    assert(all[j as int] == inner@[j as int]@);
                                    if !same_text(inner[j].name.as_str(), "default")
                                        && !found_name(&result, inner[j].name.as_str()) {
                                        result.push(inner[j].dup());
                                    }
                                    j = j + 1;
                                }
                            },
                            Err(stop) => {
                                proof {
                                    lemma_stars_stay_failed(
                                        g,
                                        below as nat,
                                        specifier@,
                                        (i + 1) as nat,
                                        info.re_exports.len(),
                                        start,
                                    );
                                }
                                return Err(stop);
                            },
                        }
                    },
                    None => {},
                }
                i = i + 1;
            }
        },
    }
    Ok(result)
}

/// Looks for exports of a module, there and in the modules all of whose exports it
/// exports.
pub fn trace_exports_inner(
    graph: &TextMap<TraceModule>,
    analyzed: &mut TextMap<()>,
    specifier: &ModuleSpecifier,
    exports_to_trace: &ExportsToTrace,
) -> (r: Result<Vec<TracedExport>, String>)
    requires
        traceable(*graph),
        old(analyzed).wf(),
        has_key(infos(graph@), specifier@),
        ends(infos(graph@), old(analyzed)@, specifier@, exports_to_trace@),
    ensures
        final(analyzed).wf(),
        ({
            let out = exports_found(
                infos(graph@),
                old(analyzed)@,
                specifier@,
                exports_to_trace@,
            );
            &&& final(analyzed)@ == out.analyzed
            &&& match r {
                Ok(found) => out.failure is None && found_of(found@) == out.found,
                Err(message) => out.failure == Some(Failure::Diagnostic(message@)),
            }
        }),
{
    match search_exports(graph, analyzed, specifier, exports_to_trace, graph.len()) {
        Ok(found) => Ok(found),
        Err(stop) => match stop {
            Stop::Diagnostic(message) => Err(message),
            Stop::TooDeep => Err(String::new()),
        },
    }
}

/// Whether looking for exports of a module comes to an end.
pub fn exports_end(
    graph: &TextMap<TraceModule>,
    analyzed: &TextMap<()>,
    specifier: &ModuleSpecifier,
    exports_to_trace: &ExportsToTrace,
) -> (r: bool)
    requires
        traceable(*graph),
        analyzed.wf(),
        has_key(infos(graph@), specifier@),
    ensures
        r == ends(infos(graph@), analyzed@, specifier@, exports_to_trace@),
{
    let mut copy: TextMap<()> = TextMap::new();
    let mut i: usize = 0;
    assert(copy@ =~= analyzed@.take(0));
    while i < analyzed.len()
        invariant
            analyzed.wf(),
            copy.wf(),
            i <= analyzed@.len(),
            copy@ == analyzed@.take(i as int),
        decreases analyzed@.len() - i,
    {
        let ghost so_far = copy@;
        let ghost key = analyzed@[i as int].0;
        proof {
            analyzed.lemma_distinct();
            lemma_key_place(so_far, key);
            if has_key(so_far, key) {
                let k = key_place(so_far, key);
                assert(analyzed@[k].0 != analyzed@[i as int].0);
            }
        }
        copy.insert(analyzed.key_at(i).clone(), ());
        assert(copy@ == so_far.push((key, ())));
        assert(analyzed@[i as int] == (key, analyzed@[i as int].1));
        assert(analyzed@[i as int].1 == ());
        i = i + 1;
        assert(copy@ =~= analyzed@.take(i as int));
    }
    assert(copy@ =~= analyzed@);
    match search_exports(graph, &mut copy, specifier, exports_to_trace, graph.len()) {
        Err(Stop::TooDeep) => false,
        _ => true,
    }
}

proof fn lemma_names_stay_failed(
    g: Seq<(Seq<char>, Info)>,
    depth: nat,
    specifier: Seq<char>,
    names: Seq<Seq<char>>,
    m: nat,
    n: nat,
    start: Outcome,
    module_id: int,
)
    requires
        m <= n,
        names_upto(g, depth, specifier, names, m, start, module_id).failure is Some,
    ensures
        names_upto(g, depth, specifier, names, n, start, module_id) == names_upto(
            g,
            depth,
            specifier,
            names,
            m,
            start,
            module_id,
        ),
    decreases n,
{
    if m < n {
        lemma_names_stay_failed(
            g,
            depth,
            specifier,
            names,
            m,
            (n - 1) as nat,
            start,
            module_id,
        );
    }
}

pub proof fn lemma_stars_stay_failed(
    g: Seq<(Seq<char>, Info)>,
    depth: nat,
    specifier: Seq<char>,
    m: nat,
    n: nat,
    start: Outcome,
)
    requires
        m <= n,
        stars_upto(g, depth, specifier, m, start).failure is Some,
    ensures
        stars_upto(g, depth, specifier, n, start) == stars_upto(g, depth, specifier, m, start),
    decreases n,
{
    if m < n {
        lemma_stars_stay_failed(g, depth, specifier, m, (n - 1) as nat, start);
    }
}

/// A symbol, by the place of its module in the graph and its number there.
pub open spec fn symbol_at(g: Seq<(Seq<char>, Info)>, found: Found) -> (int, int) {
    (key_place(g, found.specifier), found.symbol_id.0 as int)
}

/// Whether there is such a symbol.
pub open spec fn is_symbol(g: Seq<(Seq<char>, Info)>, a: (int, int)) -> bool {
    0 <= a.0 < g.len() && 0 <= a.1 < g[a.0].1.deps.len()
}

/// Whether the message says why a module of the graph could not be analyzed.
pub open spec fn is_diagnostic(g: Seq<(Seq<char>, Info)>, message: Seq<char>) -> bool {
    exists|i: int| 0 <= i < g.len() && (#[trigger] g[i]).1.diagnostic == Some(message)
}

/// Whether every module that was analyzed could be.
pub open spec fn all_clean(g: Seq<(Seq<char>, Info)>, analyzed: Seq<(Seq<char>, ())>) -> bool {
    forall|i: int|
        0 <= i < analyzed.len() ==> has_key(g, (#[trigger] analyzed[i]).0) && info_of(
            g,
            analyzed[i].0,
        ).diagnostic is None
}

pub proof fn lemma_clean_entry(
    g: Seq<(Seq<char>, Info)>,
    analyzed: Seq<(Seq<char>, ())>,
    specifier: Seq<char>,
)
    requires
        all_clean(g, analyzed),
        has_key(g, specifier),
        has_key(analyzed, specifier) || info_of(g, specifier).diagnostic is None,
    ensures
        all_clean(g, with_entry(analyzed, specifier, ())),
{
    lemma_key_place(analyzed, specifier);
    let after = with_entry(analyzed, specifier, ());
    assert forall|i: int| 0 <= i < after.len() implies has_key(g, (#[trigger] after[i]).0)
        && info_of(g, after[i].0).diagnostic is None by {
        if i < analyzed.len() {
            assert(after[i].0 == analyzed[i].0);
        }
    }
}

/// Whether every export that was found is a symbol of the graph, every module that was
/// analyzed could be, and a failure is that of one of the modules.
pub open spec fn outcome_valid(g: Seq<(Seq<char>, Info)>, o: Outcome) -> bool {
    &&& all_clean(g, o.analyzed)
    &&& forall|i: int|
        0 <= i < o.found.len() ==> has_key(g, (#[trigger] o.found[i]).specifier) && is_symbol(
            g,
            symbol_at(g, o.found[i]),
        )
    &&& o.failure matches Some(Failure::Diagnostic(message)) ==> is_diagnostic(g, message)
}

proof fn lemma_own_valid(
    g: Seq<(Seq<char>, Info)>,
    specifier: Seq<char>,
    n: nat,
    module_id: int,
)
    requires
        graph_wf(g),
        has_key(g, specifier),
        n <= info_of(g, specifier).exports.len(),
    ensures
        forall|i: int|
            #![trigger own_upto(info_of(g, specifier).exports, n, specifier, module_id)[i]]
            0 <= i < own_upto(info_of(g, specifier).exports, n, specifier, module_id).len() ==> {
                let f = own_upto(info_of(g, specifier).exports, n, specifier, module_id)[i];
                f.specifier == specifier && is_symbol(g, symbol_at(g, f))
            },
    decreases n,
{
    if n > 0 {
        lemma_own_valid(g, specifier, (n - 1) as nat, module_id);
        lemma_key_place(g, specifier);
        assert(g[key_place(g, specifier)].1.exports[n - 1].1.0 < g[key_place(
            g,
            specifier,
        )].1.deps.len());
        let exports = info_of(g, specifier).exports;
        let before = own_upto(exports, (n - 1) as nat, specifier, module_id);
        let after = own_upto(exports, n, specifier, module_id);
        assert forall|i: int| #![trigger after[i]] 0 <= i < after.len() implies after[i].specifier
            == specifier && is_symbol(g, symbol_at(g, after[i])) by {
            if i < before.len() {
                assert(after[i] == before[i]);
            }
        }
    }
}

proof fn lemma_joined_valid(g: Seq<(Seq<char>, Info)>, a: Seq<Found>, b: Seq<Found>, n: nat)
    requires
        n <= b.len(),
        forall|i: int|
            0 <= i < a.len() ==> has_key(g, (#[trigger] a[i]).specifier) && is_symbol(
                g,
                symbol_at(g, a[i]),
            ),
        forall|i: int|
            0 <= i < b.len() ==> has_key(g, (#[trigger] b[i]).specifier) && is_symbol(
                g,
                symbol_at(g, b[i]),
            ),
    ensures
        forall|i: int|
            0 <= i < joined(a, b, n).len() ==> has_key(g, (#[trigger] joined(a, b, n)[i]).specifier)
                && is_symbol(g, symbol_at(g, joined(a, b, n)[i])),
    decreases n,
{
    if n > 0 {
        lemma_joined_valid(g, a, b, (n - 1) as nat);
        let before = joined(a, b, (n - 1) as nat);
        let after = joined(a, b, n);
        assert forall|i: int| 0 <= i < after.len() implies has_key(
            g,
            (#[trigger] after[i]).specifier,
        ) && is_symbol(g, symbol_at(g, after[i])) by {
            if i < before.len() {
                assert(after[i] == before[i]);
            } else {
                assert(after[i] == b[n - 1]);
            }
        }
    }
}

pub proof fn lemma_outcome_valid(
    g: Seq<(Seq<char>, Info)>,
    depth: nat,
    analyzed: Seq<(Seq<char>, ())>,
    specifier: Seq<char>,
    wanted: Wanted,
)
    requires
        graph_wf(g),
        has_key(g, specifier),
        all_clean(g, analyzed),
    ensures
        outcome_valid(g, outcome(g, depth, analyzed, specifier, wanted)),
    decreases depth, 0nat, 0nat,
{
    let info = info_of(g, specifier);
    lemma_key_place(g, specifier);
    let p = key_place(g, specifier);
    if depth == 0 {
    } else if !has_key(analyzed, specifier) && info.diagnostic is Some {
        assert(g[p].1.diagnostic == info.diagnostic);
    } else {
        let below = (depth - 1) as nat;
        let now = with_entry(analyzed, specifier, ());
        let module_id = key_place(now, specifier);
        lemma_clean_entry(g, analyzed, specifier);
        match wanted {
            Wanted::Named(names) => {
                lemma_names_valid(
                    g,
                    below,
                    specifier,
                    names,
                    names.len(),
                    Outcome { analyzed: now, found: Seq::empty(), failure: None },
                    module_id,
                );
            },
            _ => {
                lemma_own_valid(g, specifier, info.exports.len(), module_id);
                lemma_key_place(info.exports, "default"@);
                if has_key(info.exports, "default"@) {
                    let j = key_place(info.exports, "default"@);
                    assert(g[p].1.exports[j].1.0 < g[p].1.deps.len());
                }
                assert(g[p].1.default_export == info.default_export);
                let first = match default_symbol(info) {
                    Some(symbol_id) => if wanted is AllWithDefault {
                        seq![Found { specifier, module_id, name: "default"@, symbol_id }]
                    } else {
                        Seq::empty()
                    },
                    None => Seq::empty(),
                };
                let own = own_upto(info.exports, info.exports.len(), specifier, module_id);
                let found = first + own;
                assert forall|i: int| 0 <= i < found.len() implies has_key(
                    g,
                    (#[trigger] found[i]).specifier,
                ) && is_symbol(g, symbol_at(g, found[i])) by {
                    if i >= first.len() {
                        assert(found[i] == own[i - first.len()]);
                    }
                }
                lemma_stars_valid(
                    g,
                    below,
                    specifier,
                    info.re_exports.len(),
                    Outcome { analyzed: now, found, failure: None },
                );
            },
        }
    }
}

/// A name of a module resolves to a module of the graph.
pub proof fn lemma_target(g: Seq<(Seq<char>, Info)>, specifier: Seq<char>, text: Seq<char>)
    requires
        graph_wf(g),
        has_key(g, specifier),
        resolves(info_of(g, specifier).dependencies, text),
    ensures
        has_key(g, resolved(info_of(g, specifier).dependencies, text)),
{
    let info = info_of(g, specifier);
    let i = key_place(g, specifier);
    lemma_key_place(g, specifier);
    lemma_key_place(info.dependencies, text);
    assert(has_key(g, g[i].1.dependencies[key_place(info.dependencies, text)].1));
}

proof fn lemma_stars_valid(
    g: Seq<(Seq<char>, Info)>,
    depth: nat,
    specifier: Seq<char>,
    n: nat,
    start: Outcome,
)
    requires
        graph_wf(g),
        has_key(g, specifier),
        outcome_valid(g, start),
    ensures
        outcome_valid(g, stars_upto(g, depth, specifier, n, start)),
    decreases depth, 1nat, n,
{
    if n > 0 {
        lemma_stars_valid(g, depth, specifier, (n - 1) as nat, start);
        let before = stars_upto(g, depth, specifier, (n - 1) as nat, start);
        let info = info_of(g, specifier);
        let text = info.re_exports[n - 1];
        let to = resolved(info.dependencies, text);
        if before.failure is None && resolves(info.dependencies, text) {
            lemma_target(g, specifier, text);
            lemma_outcome_valid(g, depth, before.analyzed, to, Wanted::Star);
            let inner = outcome(g, depth, before.analyzed, to, Wanted::Star);
            lemma_joined_valid(g, before.found, inner.found, inner.found.len());
        }
    }
}

proof fn lemma_names_valid(
    g: Seq<(Seq<char>, Info)>,
    depth: nat,
    specifier: Seq<char>,
    names: Seq<Seq<char>>,
    n: nat,
    start: Outcome,
    module_id: int,
)
    requires
        graph_wf(g),
        has_key(g, specifier),
        outcome_valid(g, start),
    ensures
        outcome_valid(g, names_upto(g, depth, specifier, names, n, start, module_id)),
    decreases depth, 3nat, n,
{
    if n > 0 {
        lemma_names_valid(g, depth, specifier, names, (n - 1) as nat, start, module_id);
        let before = names_upto(g, depth, specifier, names, (n - 1) as nat, start, module_id);
        let after = names_upto(g, depth, specifier, names, n, start, module_id);
        let info = info_of(g, specifier);
        let name = names[n - 1];
        lemma_key_place(g, specifier);
        let p = key_place(g, specifier);
        assert(g[p].1.default_export == info.default_export);
        lemma_key_place(info.exports, name);
        if has_key(info.exports, name) {
            assert(g[p].1.exports[key_place(info.exports, name)].1.0 < g[p].1.deps.len());
        }
        lemma_first_valid(g, depth, specifier, name, 0, before.analyzed);
        let inner = first_star(g, depth, specifier, name, 0, before.analyzed);
        assert forall|i: int| 0 <= i < after.found.len() implies has_key(
            g,
            (#[trigger] after.found[i]).specifier,
        ) && is_symbol(g, symbol_at(g, after.found[i])) by {
            if i < before.found.len() {
                assert(after.found[i] == before.found[i]);
            } else if after.found == before.found + inner.found && inner.found.len() > 0 {
                assert(after.found[i] == inner.found[i - before.found.len()]);
            }
        }
    }
}

pub proof fn lemma_first_valid(
    g: Seq<(Seq<char>, Info)>,
    depth: nat,
    specifier: Seq<char>,
    name: Seq<char>,
    from: int,
    analyzed: Seq<(Seq<char>, ())>,
)
    requires
        graph_wf(g),
        has_key(g, specifier),
        all_clean(g, analyzed),
    ensures
        outcome_valid(g, first_star(g, depth, specifier, name, from, analyzed)),
    decreases depth, 2nat, info_of(g, specifier).re_exports.len() - from,
{
    let info = info_of(g, specifier);
    if from < info.re_exports.len() {
        let text = info.re_exports[from];
        let to = resolved(info.dependencies, text);
        if !resolves(info.dependencies, text) {
            lemma_first_valid(g, depth, specifier, name, from + 1, analyzed);
        } else {
            lemma_target(g, specifier, text);
            lemma_outcome_valid(g, depth, analyzed, to, Wanted::Named(seq![name]));
            let inner = outcome(g, depth, analyzed, to, Wanted::Named(seq![name]));
            if inner.failure is None && inner.found.len() == 0 {
                lemma_first_valid(g, depth, specifier, name, from + 1, inner.analyzed);
            } else if inner.failure is None {
                assert(has_key(g, inner.found[0].specifier));
            }
        }
    }
}

/// Whether a symbol is part of the public API.
pub open spec fn is_public_at(graph: Seq<(Seq<char>, TraceModule)>, a: (int, int)) -> bool {
    graph[a.0].1.symbols@.symbols[a.1].is_public
}

/// Whether a symbol is imported from a module, under a name or with everything.
pub open spec fn asks(
    g: Seq<(Seq<char>, Info)>,
    a: (int, int),
    to: Seq<char>,
    name: Option<Seq<char>>,
) -> bool {
    match g[a.0].1.file_deps[a.1] {
        Some(dep) => {
            &&& dep.name == name
            &&& resolves(g[a.0].1.dependencies, dep.specifier)
            &&& resolved(g[a.0].1.dependencies, dep.specifier) == to
        },
        None => false,
    }
}

/// Whether one of the symbols is imported from a module, under a name or with
/// everything.
pub open spec fn asked(
    g: Seq<(Seq<char>, Info)>,
    log: Seq<(int, int)>,
    to: Seq<char>,
    name: Option<Seq<char>>,
) -> bool {
    exists|i: int| 0 <= i < log.len() && asks(g, #[trigger] log[i], to, name)
}

/// Whether the exports are wanted because of the symbols: all of them are those of
/// the root, all but the default export those of a module that one of the symbols
/// imports with everything, and those with names are imported by one of the
/// symbols each.
pub open spec fn requested(
    g: Seq<(Seq<char>, Info)>,
    root: Seq<char>,
    log: Seq<(int, int)>,
    to: Seq<char>,
    wanted: Wanted,
) -> bool {
    match wanted {
        Wanted::AllWithDefault => to == root,
        Wanted::Star => asked(g, log, to, None),
        Wanted::Named(names) => forall|i: int|
            0 <= i < names.len() ==> asked(g, log, to, Some(#[trigger] names[i])),
    }
}

/// Whether looking for the exports of a module finds the symbol.
pub open spec fn finds(
    g: Seq<(Seq<char>, Info)>,
    analyzed: Seq<(Seq<char>, ())>,
    to: Seq<char>,
    wanted: Wanted,
    a: (int, int),
) -> bool {
    let out = exports_found(g, analyzed, to, wanted);
    out.failure is None && exists|i: int|
        0 <= i < out.found.len() && symbol_at(g, #[trigger] out.found[i]) == a
}

/// Whether a symbol depends on another of its module.
pub open spec fn needs(g: Seq<(Seq<char>, Info)>, a: (int, int), b: (int, int)) -> bool {
    a.0 == b.0 && exists|id: (Seq<char>, u32)| #[trigger]
        g[a.0].1.deps[a.1].contains(id) && has_key(g[a.0].1.ids, id) && g[a.0].1.ids[key_place(
            g[a.0].1.ids,
            id,
        )].1.0 == b.1
}

/// Whether a symbol is public because of others: one of them depends on it, or it
/// is found among the exports that are wanted because of them.
pub open spec fn justified(
    g: Seq<(Seq<char>, Info)>,
    root: Seq<char>,
    log: Seq<(int, int)>,
    a: (int, int),
) -> bool {
    ||| exists|i: int| 0 <= i < log.len() && needs(g, #[trigger] log[i], a)
    ||| exists|analyzed: Seq<(Seq<char>, ())>, to: Seq<char>, wanted: Wanted|
        requested(g, root, log, to, wanted) && #[trigger] finds(g, analyzed, to, wanted, a)
}

/// Whether each of the symbols is public because of those before it.
pub open spec fn is_derivation(
    g: Seq<(Seq<char>, Info)>,
    root: Seq<char>,
    log: Seq<(int, int)>,
) -> bool {
    &&& log.no_duplicates()
    &&& forall|i: int|
        0 <= i < log.len() ==> is_symbol(g, #[trigger] log[i]) && justified(
            g,
            root,
            log.take(i),
            log[i],
        )
}

/// Whether the exports that are traced hold what a name, or everything, asks for.
pub open spec fn covers(wanted: Wanted, name: Option<Seq<char>>) -> bool {
    match wanted {
        Wanted::AllWithDefault => true,
        Wanted::Star => name != Some("default"@),
        Wanted::Named(names) => name is Some && names.contains(name.unwrap()),
    }
}

/// Whether everything that looking for the exports finds is among the symbols.
pub open spec fn all_found(
    g: Seq<(Seq<char>, Info)>,
    log: Seq<(int, int)>,
    analyzed: Seq<(Seq<char>, ())>,
    to: Seq<char>,
    wanted: Wanted,
) -> bool {
    let out = exports_found(g, analyzed, to, wanted);
    out.failure is None && forall|i: int|
        0 <= i < out.found.len() ==> log.contains(symbol_at(g, #[trigger] out.found[i]))
}

/// Whether what a name, or everything, asks of a module is among the symbols.
pub open spec fn is_traced(
    g: Seq<(Seq<char>, Info)>,
    log: Seq<(int, int)>,
    to: Seq<char>,
    name: Option<Seq<char>>,
) -> bool {
    exists|analyzed: Seq<(Seq<char>, ())>, wanted: Wanted|
        covers(wanted, name) && #[trigger] all_found(g, log, analyzed, to, wanted)
}

/// Whether the symbols hold whatever one of them depends on, in its module and in
/// the modules that it is imported from. A default export that is imported is not
/// looked for where everything else of its module is imported too.
pub open spec fn is_complete(g: Seq<(Seq<char>, Info)>, log: Seq<(int, int)>) -> bool {
    &&& forall|i: int, b: (int, int)|
        0 <= i < log.len() && #[trigger] needs(g, log[i], b) ==> log.contains(b)
    &&& forall|i: int, to: Seq<char>, name: Option<Seq<char>>|
        0 <= i < log.len() && #[trigger] asks(g, log[i], to, name) ==> is_traced(
            g,
            log,
            to,
            name,
        ) || (name == Some("default"@) && asked(g, log, to, None))
}

proof fn lemma_asked_grows(
    g: Seq<(Seq<char>, Info)>,
    log: Seq<(int, int)>,
    more: Seq<(int, int)>,
    to: Seq<char>,
    name: Option<Seq<char>>,
)
    requires
        asked(g, log, to, name),
        log.len() <= more.len(),
        forall|i: int| 0 <= i < log.len() ==> log[i] == more[i],
    ensures
        asked(g, more, to, name),
{
    let i = choose|i: int| 0 <= i < log.len() && asks(g, #[trigger] log[i], to, name);
    assert(asks(g, more[i], to, name));
}

proof fn lemma_requested_grows(
    g: Seq<(Seq<char>, Info)>,
    root: Seq<char>,
    log: Seq<(int, int)>,
    more: Seq<(int, int)>,
    to: Seq<char>,
    wanted: Wanted,
)
    requires
        requested(g, root, log, to, wanted),
        log.len() <= more.len(),
        forall|i: int| 0 <= i < log.len() ==> log[i] == more[i],
    ensures
        requested(g, root, more, to, wanted),
{
    match wanted {
        Wanted::AllWithDefault => {},
        Wanted::Star => {
            lemma_asked_grows(g, log, more, to, None);
        },
        Wanted::Named(names) => {
            assert forall|i: int| 0 <= i < names.len() implies asked(
                g,
                more,
                to,
                Some(#[trigger] names[i]),
            ) by {
                lemma_asked_grows(g, log, more, to, Some(names[i]));
            }
        },
    }
}

proof fn lemma_justified_grows(
    g: Seq<(Seq<char>, Info)>,
    root: Seq<char>,
    log: Seq<(int, int)>,
    more: Seq<(int, int)>,
    a: (int, int),
)
    requires
        justified(g, root, log, a),
        log.len() <= more.len(),
        forall|i: int| 0 <= i < log.len() ==> log[i] == more[i],
    ensures
        justified(g, root, more, a),
{
    if exists|i: int| 0 <= i < log.len() && needs(g, #[trigger] log[i], a) {
        let i = choose|i: int| 0 <= i < log.len() && needs(g, #[trigger] log[i], a);
        assert(needs(g, more[i], a));
    } else {
        let (analyzed, to, wanted) = choose|
            analyzed: Seq<(Seq<char>, ())>,
            to: Seq<char>,
            wanted: Wanted,
        |
            requested(g, root, log, to, wanted) && #[trigger] finds(g, analyzed, to, wanted, a);
        lemma_requested_grows(g, root, log, more, to, wanted);
        assert(finds(g, analyzed, to, wanted, a));
    }
}

proof fn lemma_traced_grows(
    g: Seq<(Seq<char>, Info)>,
    log: Seq<(int, int)>,
    more: Seq<(int, int)>,
    to: Seq<char>,
    name: Option<Seq<char>>,
)
    requires
        is_traced(g, log, to, name),
        forall|a: (int, int)| log.contains(a) ==> more.contains(a),
    ensures
        is_traced(g, more, to, name),
{
    let (analyzed, wanted) = choose|analyzed: Seq<(Seq<char>, ())>, wanted: Wanted|
        covers(wanted, name) && #[trigger] all_found(g, log, analyzed, to, wanted);
    assert(all_found(g, more, analyzed, to, wanted));
}

/// All symbols of the first `n` modules.
spec fn symbols_upto(g: Seq<(Seq<char>, Info)>, n: nat) -> Set<(int, int)>
    decreases n,
{
    if n == 0 {
        Set::empty()
    } else {
        symbols_upto(g, (n - 1) as nat).union(
            vstd::set_lib::set_int_range(0, g[n - 1].1.deps.len() as int).map(
                |k: int| (n - 1, k),
            ),
        )
    }
}

proof fn lemma_symbols_upto(g: Seq<(Seq<char>, Info)>, n: nat)
    requires
        n <= g.len(),
    ensures
        symbols_upto(g, n).finite(),
        forall|a: (int, int)|
            0 <= a.0 < n && 0 <= a.1 < g[a.0].1.deps.len() ==> #[trigger] symbols_upto(
                g,
                n,
            ).contains(a),
    decreases n,
{
    if n > 0 {
        lemma_symbols_upto(g, (n - 1) as nat);
        let range = vstd::set_lib::set_int_range(0, g[n - 1].1.deps.len() as int);
        vstd::set_lib::lemma_int_range(0, g[n - 1].1.deps.len() as int);
        let last = range.map(|k: int| (n - 1, k));
        range.lemma_map_finite(|k: int| (n - 1, k));
        assert forall|a: (int, int)|
            0 <= a.0 < n && 0 <= a.1 < g[a.0].1.deps.len() implies #[trigger] symbols_upto(
            g,
            n,
        ).contains(a) by {
            if a.0 == n - 1 {
                assert(range.contains(a.1));
                assert(last.contains((n - 1, a.1)));
            } else {
                assert(symbols_upto(g, (n - 1) as nat).contains(a));
            }
        }
    }
}

proof fn lemma_log_bounded(g: Seq<(Seq<char>, Info)>, log: Seq<(int, int)>)
    requires
        log.no_duplicates(),
        forall|i: int| 0 <= i < log.len() ==> is_symbol(g, #[trigger] log[i]),
    ensures
        log.len() <= symbols_upto(g, g.len()).len(),
{
    lemma_symbols_upto(g, g.len());
    log.unique_seq_to_set();
    assert forall|a: (int, int)| log.to_set().contains(a) implies symbols_upto(
        g,
        g.len(),
    ).contains(a) by {
        let i = log.index_of(a);
        assert(is_symbol(g, log[i]));
    }
    vstd::set_lib::lemma_len_subset(log.to_set(), symbols_upto(g, g.len()));
}

/// What is still to be traced, by module.
pub open spec fn wants(s: Seq<(Seq<char>, ExportsToTrace)>) -> Seq<(Seq<char>, Wanted)> {
    Seq::new(s.len(), |i: int| (s[i].0, s[i].1@))
}

/// What is still to be traced after a symbol turned out to be imported.
pub open spec fn wants_too(
    p: Seq<(Seq<char>, Wanted)>,
    to: Seq<char>,
    name: Option<Seq<char>>,
) -> Seq<(Seq<char>, Wanted)> {
    if has_key(p, to) {
        p.update(key_place(p, to), (to, wanted_too(p[key_place(p, to)].1, name)))
    } else {
        p.push((to, wanted_by(name)))
    }
}

/// Whether what is still to be traced is wanted because of the symbols.
pub open spec fn pending_ok(
    g: Seq<(Seq<char>, Info)>,
    root: Seq<char>,
    log: Seq<(int, int)>,
    p: Seq<(Seq<char>, Wanted)>,
) -> bool {
    &&& distinct_keys(p)
    &&& forall|i: int|
        0 <= i < p.len() ==> has_key(g, (#[trigger] p[i]).0) && requested(
            g,
            root,
            log,
            p[i].0,
            p[i].1,
        )
}

/// Whether what a name, or everything, asks of a module is still to be traced.
pub open spec fn is_pending(
    p: Seq<(Seq<char>, Wanted)>,
    to: Seq<char>,
    name: Option<Seq<char>>,
) -> bool {
    has_key(p, to) && covers(p[key_place(p, to)].1, name)
}

/// Whether what a symbol asks of a module is traced, still to be traced, or being
/// traced now.
pub open spec fn is_answered(
    g: Seq<(Seq<char>, Info)>,
    log: Seq<(int, int)>,
    p: Seq<(Seq<char>, Wanted)>,
    now: Option<(Seq<char>, Wanted)>,
    to: Seq<char>,
    name: Option<Seq<char>>,
) -> bool {
    ||| is_traced(g, log, to, name)
    ||| name == Some("default"@) && asked(g, log, to, None)
    ||| is_pending(p, to, name)
    ||| now is Some && now.unwrap().0 == to && covers(now.unwrap().1, name)
}

/// Whether what each of the symbols asks of a module is traced, still to be
/// traced, or being traced now.
pub open spec fn all_answered(
    g: Seq<(Seq<char>, Info)>,
    log: Seq<(int, int)>,
    p: Seq<(Seq<char>, Wanted)>,
    now: Option<(Seq<char>, Wanted)>,
) -> bool {
    forall|i: int, to: Seq<char>, name: Option<Seq<char>>|
        0 <= i < log.len() && #[trigger] asks(g, log[i], to, name) ==> is_answered(
            g,
            log,
            p,
            now,
            to,
            name,
        )
}

/// What is still to be traced after a symbol became public.
pub open spec fn wants_after(
    g: Seq<(Seq<char>, Info)>,
    p: Seq<(Seq<char>, Wanted)>,
    a: (int, int),
) -> Seq<(Seq<char>, Wanted)> {
    match g[a.0].1.file_deps[a.1] {
        Some(dep) => if resolves(g[a.0].1.dependencies, dep.specifier) {
            wants_too(p, resolved(g[a.0].1.dependencies, dep.specifier), dep.name)
        } else {
            p
        },
        None => p,
    }
}

/// What is still to be traced after the symbols from the `from`-th up to the `n`-th
/// became public.
pub open spec fn wants_from(
    g: Seq<(Seq<char>, Info)>,
    p: Seq<(Seq<char>, Wanted)>,
    log: Seq<(int, int)>,
    from: nat,
    n: nat,
) -> Seq<(Seq<char>, Wanted)>
    decreases n,
{
    if n <= from {
        p
    } else {
        wants_after(g, wants_from(g, p, log, from, (n - 1) as nat), log[n - 1])
    }
}

proof fn lemma_wants_same(
    g: Seq<(Seq<char>, Info)>,
    p: Seq<(Seq<char>, Wanted)>,
    log: Seq<(int, int)>,
    more: Seq<(int, int)>,
    from: nat,
    n: nat,
)
    requires
        n <= log.len() <= more.len(),
        forall|i: int| 0 <= i < n ==> log[i] == more[i],
    ensures
        wants_from(g, p, log, from, n) == wants_from(g, p, more, from, n),
    decreases n,
{
    if n > from {
        lemma_wants_same(g, p, log, more, from, (n - 1) as nat);
    }
}

/// What is still to be traced only grows, and when symbols become public it holds each
/// module that one of them is imported from.
pub proof fn law_imports_of_public_symbols_are_pending(
    g: Seq<(Seq<char>, Info)>,
    p: Seq<(Seq<char>, Wanted)>,
    log: Seq<(int, int)>,
    from: nat,
    n: nat,
    to: Seq<char>,
)
    ensures
        has_key(p, to) ==> has_key(wants_from(g, p, log, from, n), to),
        forall|i: int, name: Option<Seq<char>>|
            from <= i < n && #[trigger] asks(g, log[i], to, name) ==> has_key(
                wants_from(g, p, log, from, n),
                to,
            ),
    decreases n,
{
    if n > from {
        let m = (n - 1) as nat;
        law_imports_of_public_symbols_are_pending(g, p, log, from, m, to);
        let before = wants_from(g, p, log, from, m);
        let after = wants_from(g, p, log, from, n);
        let a = log[n - 1];
        lemma_key_place(before, to);
        lemma_key_place(after, to);
        match g[a.0].1.file_deps[a.1] {
            Some(dep) => {
                let other = resolved(g[a.0].1.dependencies, dep.specifier);
                lemma_key_place(before, other);
                if has_key(before, to) {
                    assert(after[key_place(before, to)].0 == to);
                }
                if resolves(g[a.0].1.dependencies, dep.specifier) && !has_key(before, other) {
                    assert(after[before.len() as int].0 == other);
                }
            },
            None => {},
        }
    }
}

proof fn lemma_wants_after(
    g: Seq<(Seq<char>, Info)>,
    root: Seq<char>,
    log: Seq<(int, int)>,
    p: Seq<(Seq<char>, Wanted)>,
    now: Option<(Seq<char>, Wanted)>,
    a: (int, int),
)
    requires
        graph_wf(g),
        is_symbol(g, a),
        pending_ok(g, root, log, p),
        all_answered(g, log, p, now),
    ensures
        pending_ok(g, root, log.push(a), wants_after(g, p, a)),
        all_answered(g, log.push(a), wants_after(g, p, a), now),
        wants_after(g, p, a).len() <= p.len() + 1,
{
    let more = log.push(a);
    let after = wants_after(g, p, a);
    let info = g[a.0].1;
    assert(more[log.len() as int] == a);
    assert forall|b: (int, int)| log.contains(b) implies more.contains(b) by {
        let k = log.index_of(b);
        assert(more[k] == b);
    }
    let has_to = info.file_deps[a.1] is Some && resolves(
        info.dependencies,
        info.file_deps[a.1].unwrap().specifier,
    );
    let dep = info.file_deps[a.1].unwrap();
    let to = resolved(info.dependencies, dep.specifier);
    let q = key_place(p, to);
    lemma_key_place(p, to);
    lemma_key_place(after, to);
    if has_to {
        assert(asks(g, a, to, dep.name));
        assert(asks(g, more[log.len() as int], to, dep.name));
        assert(asked(g, more, to, dep.name));
        assert(has_key(g, to)) by {
            lemma_key_place(info.dependencies, dep.specifier);
            let j = key_place(info.dependencies, dep.specifier);
            assert(has_key(g, g[a.0].1.dependencies[j].1));
        }
    }
    assert forall|i: int, j: int| 0 <= i < j < after.len() implies (#[trigger] after[i]).0 != (
    #[trigger] after[j]).0 by {
        if i < p.len() {
            assert(after[i].0 == p[i].0);
        }
        if j < p.len() {
            assert(after[j].0 == p[j].0);
            assert(p[i].0 != p[j].0);
        } else {
            assert(p[i].0 != to);
        }
    }
    assert forall|i: int| 0 <= i < after.len() implies has_key(g, (#[trigger] after[i]).0)
        && requested(g, root, more, after[i].0, after[i].1) by {
        if i < p.len() {
            assert(p[i].0 == after[i].0);
            lemma_requested_grows(g, root, log, more, p[i].0, p[i].1);
            if has_to && has_key(p, to) && i == q {
                match (p[i].1, dep.name) {
                    (Wanted::Named(names), Some(name)) => {
                        let all = names.push(name);
                        assert forall|k: int| 0 <= k < all.len() implies asked(
                            g,
                            more,
                            to,
                            Some(#[trigger] all[k]),
                        ) by {
                            if k < names.len() {
                                assert(all[k] == names[k]);
                            }
                        }
                    },
                    _ => {},
                }
            }
        } else {
            match dep.name {
                Some(name) => {
                    assert(seq![name][0] == name);
                },
                None => {},
            }
        }
    }
    assert forall|i: int, to2: Seq<char>, name2: Option<Seq<char>>|
        0 <= i < more.len() && #[trigger] asks(g, more[i], to2, name2) implies is_answered(
        g,
        more,
        after,
        now,
        to2,
        name2,
    ) by {
        lemma_key_place(p, to2);
        lemma_key_place(after, to2);
        if i < log.len() {
            assert(asks(g, log[i], to2, name2));
            assert(is_answered(g, log, p, now, to2, name2));
            if is_traced(g, log, to2, name2) {
                lemma_traced_grows(g, log, more, to2, name2);
            } else if name2 == Some("default"@) && asked(g, log, to2, None) {
                lemma_asked_grows(g, log, more, to2, None);
            } else if is_pending(p, to2, name2) {
                let q2 = key_place(p, to2);
                lemma_key_place_is(after, q2);
                assert(after[q2].0 == to2);
                if has_to && has_key(p, to) && to2 == to {
                    match (p[q].1, dep.name) {
                        (Wanted::Named(names), Some(name)) => {
                            let k = names.index_of(name2.unwrap());
                            assert(names.push(name)[k] == name2.unwrap());
                        },
                        _ => {},
                    }
                } else {
                    assert(after[q2] == p[q2]);
                }
            }
        } else {
            assert(to2 == to && name2 == dep.name);
            if has_key(p, to) {
                lemma_key_place_is(after, q);
                assert(after[q].0 == to);
                match (p[q].1, dep.name) {
                    (Wanted::Named(names), Some(name)) => {
                        assert(names.push(name)[names.len() as int] == name);
                    },
                    (Wanted::Star, Some(name)) => {
                        lemma_asked_grows(g, log, more, to, None);
                    },
                    _ => {},
                }
            } else {
                lemma_key_place_is(after, p.len() as int);
                match dep.name {
                    Some(name) => {
                        assert(seq![name][0] == name);
                    },
                    None => {},
                }
            }
        }
    }
}

/// The exports of other modules that a module has, as far as they were traced:
/// for each name the module, its number, and the symbol.
pub open spec fn traced_of(s: Seq<(Seq<char>, UniqueSymbol)>) -> Seq<
    (Seq<char>, (Seq<char>, int, SymbolId)),
> {
    Seq::new(
        s.len(),
        |i: int|
            (
                s[i].0,
                (s[i].1.specifier@, s[i].1.module_id.0 as int, s[i].1.symbol_id),
            ),
    )
}

/// The exports of other modules that each module of a graph has, as far as they were
/// traced.
pub open spec fn traced_all(graph: Seq<(Seq<char>, TraceModule)>) -> Seq<
    Seq<(Seq<char>, (Seq<char>, int, SymbolId))>,
> {
    Seq::new(graph.len(), |i: int| traced_of(graph[i].1.symbols.traced_re_exports@))
}

/// The traced exports with those of the first `n` that are declared in another
/// module.
pub open spec fn traced_too(
    traced: Seq<(Seq<char>, (Seq<char>, int, SymbolId))>,
    specifier: Seq<char>,
    found: Seq<Found>,
    n: nat,
) -> Seq<(Seq<char>, (Seq<char>, int, SymbolId))>
    decreases n,
{
    if n == 0 {
        traced
    } else {
        let before = traced_too(traced, specifier, found, (n - 1) as nat);
        let f = found[n - 1];
        if f.specifier != specifier {
            with_entry(before, f.name, (f.specifier, f.module_id, f.symbol_id))
        } else {
            before
        }
    }
}

proof fn lemma_traced_entry(s: Seq<(Seq<char>, UniqueSymbol)>, name: Seq<char>, u: UniqueSymbol)
    ensures
        traced_of(with_entry(s, name, u)) == with_entry(
            traced_of(s),
            name,
            (u.specifier@, u.module_id.0 as int, u.symbol_id),
        ),
{
    crate::collections::lemma_key_place_same(s, traced_of(s), name);
    lemma_key_place(s, name);
    assert(traced_of(with_entry(s, name, u)) =~= with_entry(
        traced_of(s),
        name,
        (u.specifier@, u.module_id.0 as int, u.symbol_id),
    ));
}

impl ModuleSymbol {
    /// Notes the exports that are declared in another module.
    fn add_traced_re_exports(&mut self, specifier: &ModuleSpecifier, exports: &Vec<TracedExport>)
        requires
            old(self).wf(),
        ensures
            final(self).wf(),
            *final(self) == (ModuleSymbol {
                traced_re_exports: final(self).traced_re_exports,
                ..*old(self)
            }),
            traced_of(final(self).traced_re_exports@) == traced_too(
                traced_of(old(self).traced_re_exports@),
                specifier@,
                found_of(exports@),
                exports@.len(),
            ),
    {
        let ghost before = traced_of(self.traced_re_exports@);
        let ghost found = found_of(exports@);
        let mut i: usize = 0;
        while i < exports.len()
            invariant
                i <= exports@.len(),
                found == found_of(exports@),
                self.wf(),
                *self == (ModuleSymbol {
                    traced_re_exports: self.traced_re_exports,
                    ..*old(self)
                }),
                traced_of(self.traced_re_exports@) == traced_too(
                    before,
                    specifier@,
                    found,
                    i as nat,
                ),
            decreases exports@.len() - i,
        {
            let export: &TracedExport = &exports[i];
            assert(found[i as int] == export@);
            if !export.specifier.same(specifier) {
                let unique = UniqueSymbol {
                    specifier: export.specifier.dup(),
                    module_id: export.module_id,
                    symbol_id: export.symbol_id,
                };
                proof {
                    lemma_traced_entry(self.traced_re_exports@, export.name@, unique);
                }
                self.traced_re_exports.insert(export.name.clone(), unique);
            }
            i = i + 1;
        }
    }
}

/// Makes a symbol public. This tells whether it was not.
fn mark_public_at(graph: &mut TextMap<TraceModule>, i: usize, symbol_id: SymbolId) -> (r: bool)
    requires
        traceable(*old(graph)),
        is_symbol(infos(old(graph)@), (i as int, symbol_id.0 as int)),
    ensures
        traceable(*final(graph)),
        infos(final(graph)@) == infos(old(graph)@),
        traced_all(final(graph)@) == traced_all(old(graph)@),
        r == !is_public_at(old(graph)@, (i as int, symbol_id.0 as int)),
        forall|b: (int, int)|
            is_symbol(infos(old(graph)@), b) ==> #[trigger] is_public_at(final(graph)@, b) == (
            is_public_at(old(graph)@, b) || b == (i as int, symbol_id.0 as int)),
{
    let ghost before = graph@;
    assert(before[i as int].1.symbols.wf());
    let module: &mut TraceModule = graph.value_at_mut(i);
    let symbol: &mut Symbol = module.symbols.symbol_mut(symbol_id).unwrap();
    let r: bool = symbol.mark_public();
    proof {
        let after = graph@;
        let m = before[i as int].1;
        let n = after[i as int].1;
        assert(n.symbols.wf());
        assert(n.info().deps =~= m.info().deps);
        assert(n.info().file_deps =~= m.info().file_deps);
        assert(n.info().decls =~= m.info().decls);
        assert(traced_all(after) =~= traced_all(before));
        assert(n.info() =~= m.info());
        assert(infos(after) =~= infos(before));
        assert forall|b: (int, int)| is_symbol(infos(before), b) implies #[trigger] is_public_at(
            after,
            b,
        ) == (is_public_at(before, b) || b == (i as int, symbol_id.0 as int)) by {
            if b.0 != i {
                assert(after[b.0] == before[b.0]);
            }
        }
        assert forall|k: int| 0 <= k < after.len() implies (#[trigger] after[k]).1.symbols.wf() by {
            if k != i {
                assert(after[k] == before[k]);
            }
        }
    }
    r
}

/// What a trace changes: the modules that were analyzed, what is still to be traced,
/// the symbols that became public, and the exports of other modules that each module
/// has.
#[verifier::ext_equal]
pub struct TraceState {
    pub analyzed: Seq<(Seq<char>, ())>,
    pub pending: Seq<(Seq<char>, Wanted)>,
    pub log: Seq<(int, int)>,
    pub traced: Seq<Seq<(Seq<char>, (Seq<char>, int, SymbolId))>>,
}

/// Whether a symbol is among the exports that were found.
pub open spec fn is_found(g: Seq<(Seq<char>, Info)>, found: Seq<Found>, a: (int, int)) -> bool {
    exists|i: int| 0 <= i < found.len() && symbol_at(g, #[trigger] found[i]) == a
}

/// Whether one of the symbols from the `from`-th up to the `n`-th depends on a symbol
/// of its module.
pub open spec fn is_needed(
    g: Seq<(Seq<char>, Info)>,
    log: Seq<(int, int)>,
    from: int,
    n: int,
    a: (int, int),
) -> bool {
    exists|i: int| from <= i < n && needs(g, #[trigger] log[i], a)
}

/// Whether one state comes from another by tracing exports of a module: what is found
/// becomes public, and whatever that depends on in its module, and nothing else. Each
/// symbol that becomes public asks for what it is imported from.
pub open spec fn module_traced(
    g: Seq<(Seq<char>, Info)>,
    s: TraceState,
    t: TraceState,
    to: Seq<char>,
    wanted: Wanted,
) -> bool {
    let out = exports_found(g, s.analyzed, to, wanted);
    let p = key_place(g, to);
    let from = s.log.len() as int;
    &&& out.failure is None
    &&& t.analyzed == out.analyzed
    &&& t.traced == s.traced.update(
        p,
        traced_too(s.traced[p], to, out.found, out.found.len()),
    )
    &&& s.log.len() <= t.log.len()
    &&& forall|i: int| 0 <= i < from ==> s.log[i] == t.log[i]
    &&& t.log.no_duplicates()
    &&& forall|i: int|
        from <= i < t.log.len() ==> is_found(g, out.found, #[trigger] t.log[i]) || is_needed(
            g,
            t.log,
            from,
            i,
            t.log[i],
        )
    &&& forall|i: int|
        0 <= i < out.found.len() ==> t.log.contains(symbol_at(g, #[trigger] out.found[i]))
    &&& forall|i: int, b: (int, int)|
        from <= i < t.log.len() && #[trigger] needs(g, t.log[i], b) ==> t.log.contains(b)
    &&& t.pending == wants_from(g, s.pending, t.log, s.log.len(), t.log.len())
}

/// Whether one state comes from another by tracing what came last.
pub open spec fn run_step(g: Seq<(Seq<char>, Info)>, s: TraceState, t: TraceState) -> bool {
    &&& s.pending.len() > 0
    &&& module_traced(
        g,
        TraceState { pending: s.pending.drop_last(), ..s },
        t,
        s.pending.last().0,
        s.pending.last().1,
    )
}

/// Whether tracing what came last fails.
pub open spec fn run_fails(
    g: Seq<(Seq<char>, Info)>,
    s: TraceState,
    message: Seq<char>,
) -> bool {
    &&& s.pending.len() > 0
    &&& exports_found(g, s.analyzed, s.pending.last().0, s.pending.last().1).failure == Some(
        Failure::Diagnostic(message),
    )
}

/// The state before anything was traced.
pub open spec fn first_state(
    root: Seq<char>,
    traced: Seq<Seq<(Seq<char>, (Seq<char>, int, SymbolId))>>,
) -> TraceState {
    TraceState {
        analyzed: Seq::empty(),
        pending: seq![(root, Wanted::AllWithDefault)],
        log: Seq::empty(),
        traced,
    }
}

/// Whether the states follow each other, from the first on.
pub open spec fn is_run(
    g: Seq<(Seq<char>, Info)>,
    root: Seq<char>,
    traced: Seq<Seq<(Seq<char>, (Seq<char>, int, SymbolId))>>,
    run: Seq<TraceState>,
) -> bool {
    &&& run.len() > 0
    &&& run[0] == first_state(root, traced)
    &&& forall|i: int| 0 < i < run.len() ==> run_step(g, run[i - 1], #[trigger] run[i])
}

/// The state of a trace.
pub struct Context {
    pub graph: TextMap<TraceModule>,
    /// The modules that were analyzed, in order. The place of a module is its
    /// number.
    pub analyzed: TextMap<()>,
    pub pending_traces: TextMap<ExportsToTrace>,
    pub root: ModuleSpecifier,
    /// The symbols that became public, in order.
    pub log: Ghost<Seq<(int, int)>>,
}

/// A symbol that is to become public.
#[derive(Debug)]
pub struct TracedSymbol {
    pub specifier: ModuleSpecifier,
    pub symbol_id: SymbolId,
}

/// The symbols that are to become public.
pub open spec fn stack_of(g: Seq<(Seq<char>, Info)>, s: Seq<TracedSymbol>) -> Seq<(int, int)> {
    Seq::new(
        s.len(),
        |i: int| (key_place(g, s[i].specifier@), s[i].symbol_id.0 as int),
    )
}

/// Whether each of the symbols is found in the graph and is public because of the
/// others.
spec fn stack_ok(
    g: Seq<(Seq<char>, Info)>,
    root: Seq<char>,
    log: Seq<(int, int)>,
    s: Seq<TracedSymbol>,
) -> bool {
    forall|i: int|
        0 <= i < s.len() ==> has_key(g, (#[trigger] s[i]).specifier@) && is_symbol(
            g,
            stack_of(g, s)[i],
        ) && justified(g, root, log, stack_of(g, s)[i])
}

/// Whether whatever a symbol depends on in its module is public or is to become so.
spec fn needs_ok(
    g: Seq<(Seq<char>, Info)>,
    log: Seq<(int, int)>,
    stack: Seq<(int, int)>,
) -> bool {
    forall|i: int, b: (int, int)|
        0 <= i < log.len() && #[trigger] needs(g, log[i], b) ==> log.contains(b)
            || stack.contains(b)
}

impl Context {
    /// What tracing does not change.
    pub open spec fn g(&self) -> Seq<(Seq<char>, Info)> {
        infos(self.graph@)
    }

    /// What a trace changes.
    pub open spec fn state(&self) -> TraceState {
        TraceState {
            analyzed: self.analyzed@,
            pending: wants(self.pending_traces@),
            log: self.log@,
            traced: traced_all(self.graph@),
        }
    }

    /// The public symbols are those that became public, each because of others.
    pub open spec fn wf(&self) -> bool {
        &&& traceable(self.graph)
        &&& all_clean(self.g(), self.analyzed@)
        &&& self.analyzed.wf()
        &&& self.pending_traces.wf()
        &&& has_key(self.g(), self.root@)
        &&& pending_ok(self.g(), self.root@, self.log@, wants(self.pending_traces@))
        &&& is_derivation(self.g(), self.root@, self.log@)
        &&& forall|a: (int, int)|
            is_symbol(self.g(), a) ==> (#[trigger] is_public_at(self.graph@, a)
                <==> self.log@.contains(a))
    }

    /// The symbols of a module, or why it has none.
    pub fn parsed_source(&self, specifier: &ModuleSpecifier) -> (r: Result<&ModuleSymbol, &String>)
        requires
            self.graph.wf(),
            has_key(self.graph@, specifier@),
        ensures
            ({
                let module = self.graph@[key_place(self.graph@, specifier@)].1;
                match r {
                    Ok(symbols) => module.diagnostic is None && *symbols == module.symbols,
                    Err(message) => module.diagnostic == Some(*message),
                }
            }),
    {
        let module: &TraceModule = self.graph.get(specifier.text.as_str()).unwrap();
        match &module.diagnostic {
            Some(message) => Err(message),
            None => Ok(&module.symbols),
        }
    }

    /// The symbols of a module, which is analyzed by this if it was not before, or
    /// why it has none.
    pub fn get_module_symbol(&mut self, specifier: &ModuleSpecifier) -> (r: Result<
        &ModuleSymbol,
        String,
    >)
        requires
            old(self).graph.wf(),
            old(self).analyzed.wf(),
            has_key(infos(old(self).graph@), specifier@),
        ensures
            final(self).graph == old(self).graph,
            final(self).pending_traces == old(self).pending_traces,
            final(self).root == old(self).root,
            final(self).log == old(self).log,
            final(self).analyzed.wf(),
            match r {
                Ok(symbols) => {
                    &&& *symbols == old(self).graph@[key_place(old(self).graph@, specifier@)].1.symbols
                    &&& final(self).analyzed@ == with_entry(old(self).analyzed@, specifier@, ())
                    &&& has_key(old(self).analyzed@, specifier@) || info_of(
                        infos(old(self).graph@),
                        specifier@,
                    ).diagnostic is None
                },
                Err(message) => {
                    &&& info_of(infos(old(self).graph@), specifier@).diagnostic == Some(message@)
                    &&& !has_key(old(self).analyzed@, specifier@)
                    &&& final(self).analyzed@ == old(self).analyzed@
                },
            },
    {
        proof {
            lemma_place_same(self.graph, specifier@);
        }
        match analyze(&self.graph, &mut self.analyzed, specifier) {
            Ok(_) => Ok(&self.graph.get(specifier.text.as_str()).unwrap().symbols),
            Err(message) => Err(message),
        }
    }

    /// Looks for exports of a module, and notes those that are declared elsewhere.
    pub fn trace_exports(
        &mut self,
        specifier: &ModuleSpecifier,
        exports_to_trace: &ExportsToTrace,
    ) -> (r: Result<Vec<TracedSymbol>, String>)
        requires
            old(self).wf(),
            has_key(old(self).g(), specifier@),
            ends(old(self).g(), old(self).analyzed@, specifier@, exports_to_trace@),
        ensures
            final(self).wf(),
            final(self).g() == old(self).g(),
            final(self).pending_traces == old(self).pending_traces,
            final(self).root == old(self).root,
            final(self).log == old(self).log,
            ({
                let out = exports_found(
                    old(self).g(),
                    old(self).analyzed@,
                    specifier@,
                    exports_to_trace@,
                );
                &&& final(self).analyzed@ == out.analyzed
                &&& match r {
                    Ok(symbols) => {
                        let p = key_place(old(self).graph@, specifier@);
                        let symbols_before = old(self).graph@[p].1.symbols;
                        let symbols_after = final(self).graph@[p].1.symbols;
                        &&& out.failure is None
                        &&& final(self).graph@ == old(self).graph@.update(
                            p,
                            (specifier@, final(self).graph@[p].1),
                        )
                        &&& final(self).graph@[p].1 == (TraceModule {
                            symbols: symbols_after,
                            ..old(self).graph@[p].1
                        })
                        &&& symbols_after == (ModuleSymbol {
                            traced_re_exports: symbols_after.traced_re_exports,
                            ..symbols_before
                        })
                        &&& symbols@.len() == out.found.len()
                        &&& forall|i: int|
                            0 <= i < out.found.len() ==> (#[trigger] symbols@[i]).specifier@
                                == out.found[i].specifier && symbols@[i].symbol_id
                                == out.found[i].symbol_id
                        &&& traced_of(symbols_after.traced_re_exports@) == traced_too(
                            traced_of(symbols_before.traced_re_exports@),
                            specifier@,
                            out.found,
                            out.found.len(),
                        )
                    },
                    Err(message) => {
                        &&& out.failure == Some(Failure::Diagnostic(message@))
                        &&& final(self).graph == old(self).graph
                    },
                }
            }),
    {
        let ghost g = self.g();
        let ghost before = self.graph@;
        proof {
            lemma_place_same(self.graph, specifier@);
            lemma_outcome_valid(
                g,
                g.len(),
                self.analyzed@,
                specifier@,
                exports_to_trace@,
            );
        }
        let exports: Vec<TracedExport> = match trace_exports_inner(
            &self.graph,
            &mut self.analyzed,
            specifier,
            exports_to_trace,
        ) {
            Ok(exports) => exports,
            Err(message) => {
                return Err(message);
            },
        };
        let i: usize = self.graph.place(specifier.text.as_str()).unwrap();
        assert(before[i as int].1.symbols.wf());
        let module: &mut TraceModule = self.graph.value_at_mut(i);
        module.symbols.add_traced_re_exports(specifier, &exports);
        proof {
            let after = self.graph@;
            assert(after[i as int].1.info() =~= before[i as int].1.info());
            assert(infos(after) =~= infos(before));
            lemma_key_place(before, specifier@);
            assert(before[i as int].0 == specifier@);
            assert forall|k: int| 0 <= k < after.len() implies (
            #[trigger] after[k]).1.symbols.wf() by {
                if k != i {
                    assert(after[k] == before[k]);
                }
            }
            assert forall|a: (int, int)| is_symbol(g, a) implies (#[trigger] is_public_at(after, a)
                <==> self.log@.contains(a)) by {
                if a.0 != i {
                    assert(after[a.0] == before[a.0]);
                }
                assert(is_public_at(before, a) <==> self.log@.contains(a));
            }
        }
        let ghost found = found_of(exports@);
        let mut symbols: Vec<TracedSymbol> = Vec::new();
        let mut j: usize = 0;
        while j < exports.len()
            invariant
                j <= exports@.len(),
                found == found_of(exports@),
                symbols@.len() == j,
                forall|k: int|
                    0 <= k < j ==> (#[trigger] symbols@[k]).specifier@ == found[k].specifier
                        && symbols@[k].symbol_id == found[k].symbol_id,
            decreases exports@.len() - j,
        {
            assert(found[j as int] == exports@[j as int]@);
            symbols.push(
                TracedSymbol {
                    specifier: exports[j].specifier.dup(),
                    symbol_id: exports[j].symbol_id,
                },
            );
            j = j + 1;
        }
        Ok(symbols)
    }
}

proof fn lemma_wants_add(
    p: Seq<(Seq<char>, ExportsToTrace)>,
    after: Seq<(Seq<char>, ExportsToTrace)>,
    to: Seq<char>,
    name: Option<Seq<char>>,
)
    requires
        has_key(p, to) ==> {
            let q = key_place(p, to);
            &&& after == p.update(q, (to, after[q].1))
            &&& after[q].1@ == wanted_too(p[q].1@, name)
        },
        !has_key(p, to) ==> {
            &&& after.len() == p.len() + 1
            &&& after == p.push((to, after[p.len() as int].1))
            &&& after[p.len() as int].1@ == wanted_by(name)
        },
    ensures
        wants(after) == wants_too(wants(p), to, name),
{
    crate::collections::lemma_key_place_same(p, wants(p), to);
    lemma_key_place(p, to);
    assert(wants(after) =~= wants_too(wants(p), to, name));
}

/// Notes what a public symbol asks of the module that it is imported from.
fn ask(context: &mut Context, i: usize, symbol_id: SymbolId)
    requires
        traceable(old(context).graph),
        old(context).pending_traces.wf(),
        is_symbol(old(context).g(), (i as int, symbol_id.0 as int)),
    ensures
        final(context).graph == old(context).graph,
        final(context).analyzed == old(context).analyzed,
        final(context).root == old(context).root,
        final(context).log == old(context).log,
        final(context).pending_traces.wf(),
        wants(final(context).pending_traces@) == wants_after(
            old(context).g(),
            wants(old(context).pending_traces@),
            (i as int, symbol_id.0 as int),
        ),
{
    let ghost g = context.g();
    let ghost before = context.pending_traces@;
    let module: &TraceModule = context.graph.value_at(i);
    let symbol: &Symbol = module.symbols.symbol(symbol_id).unwrap();
    assert(g[i as int].1.file_deps[symbol_id.0 as int] == symbol@.file_dep);
    match symbol.file_dep() {
        Some(file_dep) => {
            match find_dependency(&module.dependencies, file_dep.specifier.as_str()) {
                Some(to) => {
                    proof {
                        lemma_key_place(before, to@);
                    }
                    match context.pending_traces.place(to.text.as_str()) {
                        Some(q) => {
                            context.pending_traces.value_at_mut(q).add(&file_dep.name);
                        },
                        None => {
                            context.pending_traces.insert(
                                to.text.clone(),
                                ExportsToTrace::from_file_dep_name(&file_dep.name),
                            );
                        },
                    }
                    proof {
                        lemma_wants_add(
                            before,
                            context.pending_traces@,
                            to@,
                            dep_name(file_dep.name),
                        );
                    }
                },
                None => {},
            }
        },
        None => {},
    }
}

/// Adds the symbols on which a public symbol depends in its module to those that
/// are to become public.
fn push_needed(
    graph: &TextMap<TraceModule>,
    specifier: &ModuleSpecifier,
    i: usize,
    symbol_id: SymbolId,
    pending: &mut Vec<TracedSymbol>,
)
    requires
        traceable(*graph),
        is_symbol(infos(graph@), (i as int, symbol_id.0 as int)),
        has_key(infos(graph@), specifier@),
        i == key_place(infos(graph@), specifier@),
    ensures
        old(pending)@.len() <= final(pending)@.len(),
        forall|k: int|
            0 <= k < old(pending)@.len() ==> #[trigger] final(pending)@[k] == old(pending)@[k],
        forall|k: int|
            old(pending)@.len() <= k < final(pending)@.len() ==> (
            #[trigger] final(pending)@[k]).specifier@ == specifier@ && needs(
                infos(graph@),
                (i as int, symbol_id.0 as int),
                (i as int, final(pending)@[k].symbol_id.0 as int),
            ),
        forall|b: (int, int)| #[trigger]
            needs(infos(graph@), (i as int, symbol_id.0 as int), b) ==> stack_of(
                infos(graph@),
                final(pending)@,
            ).contains(b),
{
    let ghost g = infos(graph@);
    let ghost a = (i as int, symbol_id.0 as int);
    let ghost before = pending@;
    let module: &TraceModule = graph.value_at(i);
    let symbol: &Symbol = module.symbols.symbol(symbol_id).unwrap();
    assert(g[i as int].1 == module.info());
    assert(g[i as int].1.deps[symbol_id.0 as int] == symbol@.deps);
    let ids: &Vec<Id> = symbol.swc_dep_ids();
    let mut j: usize = 0;
    while j < ids.len()
        invariant
            j <= ids@.len(),
            g == infos(graph@),
            g[i as int].1 == module.info(),
            a == (i as int, symbol_id.0 as int),
            i == key_place(g, specifier@),
            before.len() <= pending@.len(),
            g[a.0].1.deps[a.1] == Set::new(
                |id: (Seq<char>, u32)|
                    exists|k: int| 0 <= k < ids@.len() && (#[trigger] ids@[k])@ == id,
            ),
            forall|k: int| 0 <= k < before.len() ==> #[trigger] pending@[k] == before[k],
            forall|k: int|
                before.len() <= k < pending@.len() ==> (#[trigger] pending@[k]).specifier@
                    == specifier@ && needs(g, a, (i as int, pending@[k].symbol_id.0 as int)),
            forall|k: int|
                0 <= k < j && has_key(g[a.0].1.ids, (#[trigger] ids@[k])@) ==> stack_of(
                    g,
                    pending@,
                ).contains(
                    (i as int, g[a.0].1.ids[key_place(g[a.0].1.ids, ids@[k]@)].1.0 as int),
                ),
        decreases ids@.len() - j,
    {
        let ghost earlier = pending@;
        assert(g[a.0].1.deps[a.1].contains(ids@[j as int]@));
        match module.symbols.symbol_id_from_swc(&ids[j]) {
            Some(id) => {
                pending.push(TracedSymbol { specifier: specifier.dup(), symbol_id: id });
                proof {
                    let b = (i as int, id.0 as int);
                    assert(g[a.0].1.ids[key_place(g[a.0].1.ids, ids@[j as int]@)].1.0 == b.1);
                    assert(needs(g, a, b));
                    assert(stack_of(g, pending@)[earlier.len() as int] == b);
                    assert forall|k: int|
                        0 <= k < j + 1 && has_key(
                            g[a.0].1.ids,
                            (#[trigger] ids@[k])@,
                        ) implies stack_of(g, pending@).contains(
                        (i as int, g[a.0].1.ids[key_place(g[a.0].1.ids, ids@[k]@)].1.0 as int),
                    ) by {
                        if k < j {
                            let c = (
                                i as int,
                                g[a.0].1.ids[key_place(g[a.0].1.ids, ids@[k]@)].1.0 as int,
                            );
                            let m = stack_of(g, earlier).index_of(c);
                            assert(stack_of(g, pending@)[m] == c);
                        }
                    }
                }
            },
            None => {},
        }
        j = j + 1;
    }
    proof {
        assert forall|b: (int, int)| #[trigger] needs(g, a, b) implies stack_of(
            g,
            pending@,
        ).contains(b) by {
            let id = choose|id: (Seq<char>, u32)| #[trigger]
                g[a.0].1.deps[a.1].contains(id) && has_key(g[a.0].1.ids, id)
                    && g[a.0].1.ids[key_place(g[a.0].1.ids, id)].1.0 == b.1;
            let k = choose|k: int| 0 <= k < ids@.len() && (#[trigger] ids@[k])@ == id;
            assert(has_key(g[a.0].1.ids, ids@[k]@));
        }
    }
}

/// Makes the exports of a module public, and whatever they depend on there.
#[verifier::rlimit(60)]
#[verifier::spinoff_prover]
fn trace_module(
    specifier: &ModuleSpecifier,
    context: &mut Context,
    exports_to_trace: &ExportsToTrace,
) -> (r: Result<(), String>)
    requires
        old(context).wf(),
        has_key(old(context).g(), specifier@),
        ends(
            old(context).g(),
            old(context).analyzed@,
            specifier@,
            exports_to_trace@,
        ),
        requested(
            old(context).g(),
            old(context).root@,
            old(context).log@,
            specifier@,
            exports_to_trace@,
        ),
        needs_ok(old(context).g(), old(context).log@, Seq::empty()),
        all_answered(
            old(context).g(),
            old(context).log@,
            wants(old(context).pending_traces@),
            Some((specifier@, exports_to_trace@)),
        ),
    ensures
        final(context).g() == old(context).g(),
        final(context).root == old(context).root,
        match r {
            Ok(_) => {
                &&& final(context).wf()
                &&& needs_ok(final(context).g(), final(context).log@, Seq::empty())
                &&& all_answered(
                    final(context).g(),
                    final(context).log@,
                    wants(final(context).pending_traces@),
                    None,
                )
                &&& module_traced(
                    old(context).g(),
                    old(context).state(),
                    final(context).state(),
                    specifier@,
                    exports_to_trace@,
                )
                &&& all_found(
                    final(context).g(),
                    final(context).log@,
                    old(context).analyzed@,
                    specifier@,
                    exports_to_trace@,
                )
            },
            Err(message) => {
                &&& exports_found(
                    old(context).g(),
                    old(context).analyzed@,
                    specifier@,
                    exports_to_trace@,
                ).failure == Some(Failure::Diagnostic(message@))
                &&& is_diagnostic(old(context).g(), message@)
            },
        },
{
    let ghost g = context.g();
    let ghost root = context.root@;
    let ghost first_log = context.log@;
    let ghost first_analyzed = context.analyzed@;
    let ghost out = exports_found(g, first_analyzed, specifier@, exports_to_trace@);
    let ghost now = Some((specifier@, exports_to_trace@));
    let ghost first = context.state();
    let ghost from = first_log.len() as int;
    proof {
        lemma_outcome_valid(
            g,
            g.len(),
            first_analyzed,
            specifier@,
            exports_to_trace@,
        );
        lemma_place_same(context.graph, specifier@);
    }
    let ghost place = key_place(g, specifier@);
    let ghost traced = first.traced.update(
        place,
        traced_too(first.traced[place], specifier@, out.found, out.found.len()),
    );
    let mut pending: Vec<TracedSymbol> = match context.trace_exports(specifier, exports_to_trace) {
        Ok(symbols) => symbols,
        Err(message) => {
            return Err(message);
        },
    };
    proof {
        let stack = stack_of(g, pending@);
        assert(traced_all(context.graph@) =~= traced);
        assert forall|i: int| 0 <= i < pending@.len() implies is_found(
            g,
            out.found,
            #[trigger] stack[i],
        ) by {
            assert(stack[i] == symbol_at(g, out.found[i]));
        }
        assert forall|i: int| 0 <= i < pending@.len() implies has_key(
            g,
            (#[trigger] pending@[i]).specifier@,
        ) && is_symbol(g, stack[i]) && justified(g, root, first_log, stack[i]) by {
            assert(stack[i] == symbol_at(g, out.found[i]));
            assert(finds(g, first_analyzed, specifier@, exports_to_trace@, stack[i]));
        }
        assert forall|i: int| 0 <= i < out.found.len() implies stack.contains(
            symbol_at(g, #[trigger] out.found[i]),
        ) by {
            assert(stack[i] == symbol_at(g, out.found[i]));
        }
        assert(needs_ok(g, first_log, stack)) by {
            assert forall|i: int, b: (int, int)|
                0 <= i < first_log.len() && #[trigger] needs(
                    g,
                    first_log[i],
                    b,
                ) implies first_log.contains(b) || stack.contains(b) by {
                assert(!Seq::<(int, int)>::empty().contains(b));
            }
        }
    }
    while pending.len() > 0
        invariant
            context.wf(),
            context.g() == g,
            context.root@ == root,
            context.root == old(context).root,
            has_key(g, specifier@),
            now == Some((specifier@, exports_to_trace@)),
            out.failure is None,
            stack_ok(g, root, context.log@, pending@),
            needs_ok(g, context.log@, stack_of(g, pending@)),
            all_answered(g, context.log@, wants(context.pending_traces@), now),
            forall|i: int|
                0 <= i < out.found.len() ==> context.log@.contains(
                    symbol_at(g, #[trigger] out.found[i]),
                ) || stack_of(g, pending@).contains(symbol_at(g, out.found[i])),
            first_log.len() <= context.log@.len(),
            forall|i: int| 0 <= i < first_log.len() ==> first_log[i] == context.log@[i],
            from == first_log.len(),
            context.analyzed@ == out.analyzed,
            traced_all(context.graph@) == traced,
            wants(context.pending_traces@) == wants_from(
                g,
                first.pending,
                context.log@,
                first_log.len(),
                context.log@.len(),
            ),
            forall|i: int|
                from <= i < context.log@.len() ==> is_found(g, out.found, #[trigger] context.log@[i])
                    || is_needed(g, context.log@, from, i, context.log@[i]),
            forall|i: int|
                0 <= i < pending@.len() ==> is_found(
                    g,
                    out.found,
                    #[trigger] stack_of(g, pending@)[i],
                ) || is_needed(
                    g,
                    context.log@,
                    from,
                    context.log@.len() as int,
                    stack_of(g, pending@)[i],
                ),
        decreases symbols_upto(g, g.len()).len() - context.log@.len(), pending@.len(),
    {
        let ghost stack = stack_of(g, pending@);
        let ghost log = context.log@;
        let ghost all = pending@;
        proof {
            lemma_log_bounded(g, log);
        }
        let next: TracedSymbol = pending.pop().unwrap();
        let ghost rest = stack_of(g, pending@);
        let ghost a = stack.last();
        proof {
            assert(rest =~= stack.drop_last());
            assert(all[all.len() - 1] == next);
            assert(has_key(g, all[all.len() - 1].specifier@));
            assert(is_symbol(g, stack[all.len() - 1]));
            lemma_place_same(context.graph, next.specifier@);
            assert forall|b: (int, int)| stack.contains(b) implies b == a || rest.contains(b) by {
                let k = stack.index_of(b);
                if k < rest.len() {
                    assert(rest[k] == b);
                }
            }
            assert forall|i: int| 0 <= i < pending@.len() implies has_key(
                g,
                (#[trigger] pending@[i]).specifier@,
            ) && is_symbol(g, rest[i]) && justified(g, root, log, rest[i]) by {
                assert(pending@[i] == all[i]);
                assert(stack[i] == rest[i]);
            }
        }
        let i: usize = context.graph.place(next.specifier.text.as_str()).unwrap();
        assert(a == (i as int, next.symbol_id.0 as int));
        assert(is_public_at(context.graph@, a) <==> log.contains(a));
        let ghost graph_before = context.graph@;
        if mark_public_at(&mut context.graph, i, next.symbol_id) {
            let ghost more = log.push(a);
            proof {
                assert forall|b: (int, int)| more.contains(b) <==> log.contains(b) || b == a by {
                    if log.contains(b) {
                        assert(more[log.index_of(b)] == b);
                    }
                    assert(more[log.len() as int] == a);
                    if more.contains(b) && b != a {
                        assert(log[more.index_of(b)] == b);
                    }
                }
                assert(is_derivation(g, root, more)) by {
                    assert forall|k: int| 0 <= k < more.len() implies is_symbol(
                        g,
                        #[trigger] more[k],
                    ) && justified(g, root, more.take(k), more[k]) by {
                        if k < log.len() {
                            assert(more[k] == log[k]);
                            assert(more.take(k) =~= log.take(k));
                        } else {
                            assert(more.take(k) =~= log);
                            assert(stack[all.len() - 1] == a);
                        }
                    }
                }
                assert forall|b: (int, int)| is_symbol(g, b) implies (#[trigger] is_public_at(
                    context.graph@,
                    b,
                ) <==> more.contains(b)) by {
                    assert(is_public_at(graph_before, b) <==> log.contains(b));
                }
                lemma_wants_after(g, root, log, wants(context.pending_traces@), now, a);
                lemma_wants_same(g, first.pending, log, more, first_log.len(), log.len());
                assert forall|k: int| from <= k < more.len() implies is_found(
                    g,
                    out.found,
                    #[trigger] more[k],
                ) || is_needed(g, more, from, k, more[k]) by {
                    if k < log.len() {
                        assert(more[k] == log[k]);
                        if !is_found(g, out.found, log[k]) {
                            assert(is_needed(g, log, from, k, log[k]));
                            let j = choose|j: int| from <= j < k && needs(
                                g,
                                #[trigger] log[j],
                                log[k],
                            );
                            assert(more[j] == log[j]);
                        }
                    } else {
                        assert(stack[all.len() - 1] == a);
                        if !is_found(g, out.found, a) {
                            let j = choose|j: int| from <= j < log.len() && needs(
                                g,
                                #[trigger] log[j],
                                a,
                            );
                            assert(more[j] == log[j]);
                        }
                    }
                }
            }
            context.log = Ghost(more);
            ask(context, i, next.symbol_id);
            let ghost popped = pending@;
            push_needed(&context.graph, &next.specifier, i, next.symbol_id, &mut pending);
            proof {
                let full = stack_of(g, pending@);
                assert forall|b: (int, int)| rest.contains(b) implies full.contains(b) by {
                    let k = rest.index_of(b);
                    assert(pending@[k] == popped[k]);
                    assert(full[k] == b);
                }
                assert(more[log.len() as int] == a);
                assert forall|k: int| 0 <= k < pending@.len() implies has_key(
                    g,
                    (#[trigger] pending@[k]).specifier@,
                ) && is_symbol(g, full[k]) && justified(g, root, more, full[k]) by {
                    if k < popped.len() {
                        assert(pending@[k] == popped[k]);
                        assert(full[k] == rest[k]);
                        lemma_justified_grows(g, root, log, more, rest[k]);
                    } else {
                        let b = (i as int, pending@[k].symbol_id.0 as int);
                        assert(full[k] == b);
                        assert(needs(g, more[log.len() as int], b));
                        let id = choose|id: (Seq<char>, u32)| #[trigger]
                            g[a.0].1.deps[a.1].contains(id) && has_key(g[a.0].1.ids, id)
                                && g[a.0].1.ids[key_place(g[a.0].1.ids, id)].1.0 == b.1;
                        lemma_key_place(g[a.0].1.ids, id);
                        assert(g[a.0].1.ids[key_place(g[a.0].1.ids, id)].1.0
                            < g[a.0].1.deps.len());
                    }
                }
                assert forall|k: int| 0 <= k < pending@.len() implies is_found(
                    g,
                    out.found,
                    #[trigger] full[k],
                ) || is_needed(g, more, from, more.len() as int, full[k]) by {
                    if k < popped.len() {
                        assert(pending@[k] == popped[k]);
                        assert(full[k] == rest[k]);
                        assert(rest[k] == stack[k]);
                        if !is_found(g, out.found, stack[k]) {
                            let j = choose|j: int| from <= j < log.len() && needs(
                                g,
                                #[trigger] log[j],
                                stack[k],
                            );
                            assert(more[j] == log[j]);
                        }
                    } else {
                        let b = (i as int, pending@[k].symbol_id.0 as int);
                        assert(full[k] == b);
                        assert(needs(g, more[log.len() as int], b));
                    }
                }
                assert forall|k: int, b: (int, int)|
                    0 <= k < more.len() && #[trigger] needs(g, more[k], b) implies more.contains(
                    b,
                ) || full.contains(b) by {
                    if k < log.len() {
                        assert(needs(g, log[k], b));
                    }
                }
                assert forall|k: int| 0 <= k < out.found.len() implies more.contains(
                    symbol_at(g, #[trigger] out.found[k]),
                ) || full.contains(symbol_at(g, out.found[k])) by {
                    let b = symbol_at(g, out.found[k]);
                    assert(log.contains(b) || stack.contains(b));
                }
                lemma_log_bounded(g, more);
            }
        } else {
            proof {
                assert forall|k: int| 0 <= k < pending@.len() implies is_found(
                    g,
                    out.found,
                    #[trigger] rest[k],
                ) || is_needed(g, log, from, log.len() as int, rest[k]) by {
                    assert(rest[k] == stack[k]);
                }
                assert forall|b: (int, int)| is_symbol(g, b) implies (#[trigger] is_public_at(
                    context.graph@,
                    b,
                ) <==> log.contains(b)) by {
                    assert(is_public_at(graph_before, b) <==> log.contains(b));
                }
                assert forall|k: int, b: (int, int)|
                    0 <= k < log.len() && #[trigger] needs(g, log[k], b) implies log.contains(b)
                    || rest.contains(b) by {
                    assert(log.contains(b) || stack.contains(b));
                }
                assert forall|k: int| 0 <= k < out.found.len() implies log.contains(
                    symbol_at(g, #[trigger] out.found[k]),
                ) || rest.contains(symbol_at(g, out.found[k])) by {
                    let b = symbol_at(g, out.found[k]);
                    assert(log.contains(b) || stack.contains(b));
                }
            }
        }
    }
    proof {
        let log = context.log@;
        let none = stack_of(g, pending@);
        assert(none.len() == 0);
        assert forall|b: (int, int)| !none.contains(b) by {}
        assert(needs_ok(g, log, Seq::empty())) by {
            assert forall|k: int, b: (int, int)|
                0 <= k < log.len() && #[trigger] needs(g, log[k], b) implies log.contains(b)
                || Seq::<(int, int)>::empty().contains(b) by {
                assert(log.contains(b) || none.contains(b));
            }
        }
        assert(all_found(g, log, first_analyzed, specifier@, exports_to_trace@)) by {
            assert forall|k: int| 0 <= k < out.found.len() implies log.contains(
                symbol_at(g, #[trigger] out.found[k]),
            ) by {
                assert(!none.contains(symbol_at(g, out.found[k])));
            }
        }
        assert forall|k: int, to: Seq<char>, name: Option<Seq<char>>|
            0 <= k < log.len() && #[trigger] asks(g, log[k], to, name) implies is_answered(
            g,
            log,
            wants(context.pending_traces@),
            None,
            to,
            name,
        ) by {
            assert(is_answered(g, log, wants(context.pending_traces@), now, to, name));
            if to == specifier@ && covers(exports_to_trace@, name) {
                assert(is_traced(g, log, to, name));
            }
        }
    }
    Ok(())
}

/// What tracing a graph comes to.
pub struct Traced {
    pub graph: TextMap<TraceModule>,
    pub analyzed: TextMap<()>,
}

/// Whether a traced graph is what a state says: nothing is still to be traced, the
/// public symbols are those that became public, each because of others, whatever they
/// depend on is among them, and every module that was needed could be analyzed.
pub open spec fn is_traced_by(
    g: Seq<(Seq<char>, Info)>,
    root: Seq<char>,
    s: TraceState,
    traced: Traced,
) -> bool {
    &&& infos(traced.graph@) == g
    &&& s.pending.len() == 0
    &&& s.analyzed == traced.analyzed@
    &&& s.traced == traced_all(traced.graph@)
    &&& all_clean(g, s.analyzed)
    &&& is_derivation(g, root, s.log)
    &&& is_complete(g, s.log)
    &&& all_found(g, s.log, Seq::empty(), root, Wanted::AllWithDefault)
    &&& forall|a: (int, int)|
        is_symbol(g, a) ==> (#[trigger] is_public_at(traced.graph@, a) <==> s.log.contains(a))
}

/// Whether a run comes to what a trace comes to: what tracing leaves, or why it failed.
pub open spec fn run_comes_to(
    g: Seq<(Seq<char>, Info)>,
    root: Seq<char>,
    run: Seq<TraceState>,
    r: Result<Traced, String>,
) -> bool {
    match r {
        Ok(traced) => is_traced_by(g, root, run.last(), traced),
        Err(message) => run_fails(g, run.last(), message@) && is_diagnostic(g, message@),
    }
}

/// Whether what came last goes round in a circle.
pub open spec fn run_hangs(g: Seq<(Seq<char>, Info)>, s: TraceState) -> bool {
    s.pending.len() > 0 && !ends(g, s.analyzed, s.pending.last().0, s.pending.last().1)
}

/// Whether whatever a trace of the root looks for comes to an end.
pub open spec fn requests_end(
    g: Seq<(Seq<char>, Info)>,
    root: Seq<char>,
    traced: Seq<Seq<(Seq<char>, (Seq<char>, int, SymbolId))>>,
) -> bool {
    forall|run: Seq<TraceState>| #[trigger]
        is_run(g, root, traced, run) ==> !run_hangs(g, run.last())
}

/// Traces the public API of the root: makes public what it exports, and whatever a
/// public symbol depends on, in its module and in the modules that it is imported
/// from.
pub fn trace(graph: TextMap<TraceModule>, root: ModuleSpecifier) -> (r: Result<Traced, String>)
    requires
        traceable(graph),
        has_key(infos(graph@), root@),
        requests_end(infos(graph@), root@, traced_all(graph@)),
        forall|a: (int, int)| is_symbol(infos(graph@), a) ==> !#[trigger] is_public_at(graph@, a),
    ensures
        exists|run: Seq<TraceState>|
            {
                &&& #[trigger] is_run(infos(graph@), root@, traced_all(graph@), run)
                &&& run_comes_to(infos(graph@), root@, run, r)
            },
{
    try_trace(graph, root).unwrap()
}

/// Traces the public API of the root, as far as whatever is looked for comes to an end:
/// nothing where modules that export everything of each other are gone through in a
/// circle.
#[verifier::rlimit(60)]
#[verifier::spinoff_prover]
pub fn try_trace(graph: TextMap<TraceModule>, root: ModuleSpecifier) -> (r: Option<
    Result<Traced, String>,
>)
    requires
        traceable(graph),
        has_key(infos(graph@), root@),
        forall|a: (int, int)| is_symbol(infos(graph@), a) ==> !#[trigger] is_public_at(graph@, a),
    ensures
        exists|run: Seq<TraceState>|
            {
                &&& #[trigger] is_run(infos(graph@), root@, traced_all(graph@), run)
                &&& match r {
                    Some(result) => run_comes_to(infos(graph@), root@, run, result),
                    None => run_hangs(infos(graph@), run.last()),
                }
            },
{
    let ghost g = infos(graph@);
    let mut pending_traces: TextMap<ExportsToTrace> = TextMap::new();
    pending_traces.insert(root.text.clone(), ExportsToTrace::AllWithDefault);
    let mut context = Context {
        graph,
        analyzed: TextMap::new(),
        pending_traces,
        root,
        log: Ghost(Seq::empty()),
    };
    let ghost p = wants(context.pending_traces@);
    assert(p =~= seq![(root@, Wanted::AllWithDefault)]);
    let ghost mut traced_root = false;
    let ghost mut run: Seq<TraceState> = seq![context.state()];
    let ghost traced0 = traced_all(graph@);
    assert(context.state() =~= first_state(root@, traced0));
    assert(all_clean(g, context.analyzed@));
    assert(is_derivation(g, root@, context.log@));
    while context.pending_traces.len() > 0
        invariant
            context.wf(),
            g == infos(graph@),
            context.g() == g,
            context.root@ == root@,
            is_run(g, root@, traced0, run),
            run.last() == context.state(),
            traced0 == traced_all(graph@),
            needs_ok(g, context.log@, Seq::empty()),
            all_answered(g, context.log@, wants(context.pending_traces@), None),
            traced_root ==> all_found(
                g,
                context.log@,
                Seq::empty(),
                root@,
                Wanted::AllWithDefault,
            ),
            !traced_root ==> wants(context.pending_traces@) == seq![
                (root@, Wanted::AllWithDefault),
            ] && context.analyzed@ == Seq::<(Seq<char>, ())>::empty(),
        decreases
                symbols_upto(g, g.len()).len() - context.log@.len(),
                context.pending_traces@.len(),
    {
        let ghost before = context.pending_traces@;
        let ghost q = wants(before);
        let ghost log = context.log@;
        let ghost analyzed = context.analyzed@;
        proof {
            lemma_log_bounded(g, log);
        }
        let (text, exports_to_trace) = context.pending_traces.pop().unwrap();
        let specifier = ModuleSpecifier { text };
        proof {
            let rest = wants(context.pending_traces@);
            let last = q[q.len() - 1];
            assert(rest =~= q.drop_last());
            assert(last == (specifier@, exports_to_trace@));
            assert(has_key(g, last.0) && requested(
                g,
                context.root@,
                log,
                last.0,
                last.1,
            ));
            assert(pending_ok(g, context.root@, log, rest)) by {
                assert forall|i: int| 0 <= i < rest.len() implies has_key(
                    g,
                    (#[trigger] rest[i]).0,
                ) && requested(
                    g,
                    context.root@,
                    log,
                    rest[i].0,
                    rest[i].1,
                ) by {
                    assert(rest[i] == q[i]);
                }
                assert forall|i: int, j: int| 0 <= i < j < rest.len() implies (
                #[trigger] rest[i]).0 != (#[trigger] rest[j]).0 by {
                    assert(rest[i] == q[i]);
                    assert(rest[j] == q[j]);
                }
            }
            assert forall|k: int, to: Seq<char>, name: Option<Seq<char>>|
                0 <= k < log.len() && #[trigger] asks(g, log[k], to, name) implies is_answered(
                g,
                log,
                rest,
                Some((specifier@, exports_to_trace@)),
                to,
                name,
            ) by {
                assert(is_answered(g, log, q, None, to, name));
                if is_pending(q, to, name) {
                    lemma_key_place(q, to);
                    let m = key_place(q, to);
                    if m < rest.len() {
                        assert(rest[m] == q[m]);
                        lemma_key_place_is(rest, m);
                    }
                }
            }
        }
        let ghost earlier = run.last();
        assert(context.state() =~= (TraceState {
            pending: earlier.pending.drop_last(),
            ..earlier
        }));
        if !exports_end(&context.graph, &context.analyzed, &specifier, &exports_to_trace) {
            assert(run_hangs(g, run.last()));
            return None;
        }
        match trace_module(&specifier, &mut context, &exports_to_trace) {
            Ok(_) => {
                proof {
                    let next = context.state();
                    assert(run_step(g, earlier, next));
                    let longer = run.push(next);
                    assert forall|i: int| 0 < i < longer.len() implies run_step(
                        g,
                        longer[i - 1],
                        #[trigger] longer[i],
                    ) by {
                        if i < run.len() {
                            assert(longer[i] == run[i]);
                            assert(longer[i - 1] == run[i - 1]);
                        }
                    }
                    run = longer;
                    if context.log@.len() == log.len() {
                        assert(next.pending == earlier.pending.drop_last());
                    }
                    if traced_root {
                        assert forall|a: (int, int)| log.contains(a) implies context.log@.contains(
                            a,
                        ) by {
                            assert(context.log@[log.index_of(a)] == a);
                        }
                        assert(all_found(
                            g,
                            context.log@,
                            Seq::empty(),
                            root@,
                            Wanted::AllWithDefault,
                        ));
                    } else {
                        assert(specifier@ == root@);
                        assert(analyzed == Seq::<(Seq<char>, ())>::empty());
                    }
                    traced_root = true;
                    lemma_log_bounded(g, context.log@);
                    assert(wants(context.pending_traces@).len() == context.pending_traces@.len());
                }
            },
            Err(message) => {
                assert(run_fails(g, run.last(), message@));
                assert(run_comes_to(g, root@, run, Err(message)));
                return Some(Err(message));
            },
        }
    }
    let ghost last = context.state();
    proof {
        let log = context.log@;
        let none = wants(context.pending_traces@);
        assert(none.len() == 0);
        assert(traced_root);
        assert(is_complete(g, log)) by {
            assert forall|i: int, b: (int, int)|
                0 <= i < log.len() && #[trigger] needs(g, log[i], b) implies log.contains(b) by {
                assert(!Seq::<(int, int)>::empty().contains(b));
            }
            assert forall|i: int, to: Seq<char>, name: Option<Seq<char>>|
                0 <= i < log.len() && #[trigger] asks(g, log[i], to, name) implies is_traced(
                g,
                log,
                to,
                name,
            ) || (name == Some("default"@) && asked(g, log, to, None)) by {
                lemma_key_place(none, to);
                assert(is_answered(g, log, none, None, to, name));
            }
        }
        assert(is_derivation(g, root@, log));
    }
    let Context { graph, analyzed, pending_traces, root, log } = context;
    let traced = Traced { graph, analyzed };
    assert(is_traced_by(g, root@, last, traced));
    assert(run_comes_to(g, root@, run, Ok(traced)));
    Some(Ok(traced))
}

}
