//! Follows exports to the symbols that they stand for, or to the modules on the
//! web that they come from.

use vstd::prelude::*;

use super::binder::{dep_name, Dep, FileDep, FileDepName, ModuleId};
use crate::collections::{with_entry, TextMap};
use crate::specifier::{is_remote_specifier, is_remote_url, ModuleSpecifier};

verus! {

/// A symbol of some module.
#[derive(Debug, Clone, Copy, PartialEq, Eq, Structural)]
pub struct UniqueSymbolId {
    pub module_id: usize,
    pub symbol_id: usize,
}

/// A dependency on a module on the web.
#[derive(Debug)]
pub struct RemoteDep {
    pub referrer: ModuleId,
    pub specifier_text: String,
    pub resolved_specifier: ModuleSpecifier,
    pub name: FileDepName,
}

/// A symbol, or a dependency on a module on the web.
#[derive(Debug)]
pub enum SymbolIdOrRemoteDep {
    Symbol(UniqueSymbolId),
    RemoteDep(RemoteDep),
}

/// What a [`SymbolIdOrRemoteDep`] stands for.
pub enum Target {
    Symbol(UniqueSymbolId),
    Remote {
        referrer: usize,
        specifier_text: Seq<char>,
        resolved_specifier: Seq<char>,
        name: Option<Seq<char>>,
    },
}

impl SymbolIdOrRemoteDep {
    pub open spec fn view(&self) -> Target {
        match self {
            SymbolIdOrRemoteDep::Symbol(id) => Target::Symbol(*id),
            SymbolIdOrRemoteDep::RemoteDep(dep) => Target::Remote {
                referrer: dep.referrer.0,
                specifier_text: dep.specifier_text@,
                resolved_specifier: dep.resolved_specifier@,
                name: dep_name(dep.name),
            },
        }
    }
}

/// A module, by its number and its specifier.
#[derive(Debug)]
pub struct ModuleRef {
    pub module_id: ModuleId,
    pub specifier: ModuleSpecifier,
}

/// A reference to another file, with the module that it resolves to.
#[derive(Debug)]
pub struct FileRef {
    pub name: FileDepName,
    pub specifier: String,
    pub resolved: Option<ModuleSpecifier>,
}

/// A symbol on the way from an export to its definition.
#[derive(Debug)]
pub struct PathSymbol {
    pub id: UniqueSymbolId,
    /// The file that the symbol is imported from, if it is.
    pub file_dep: Option<FileDep>,
    /// The symbol of the module that it is then imported from, if that is known.
    pub dep_module_symbol: Option<UniqueSymbolId>,
}

/// What a declaration on the way refers to.
#[derive(Debug)]
pub enum PathDecl {
    FileRef(FileRef),
    Target,
    QualifiedTarget,
    Definition,
}

/// A step on the way from an export to its definition.
#[derive(Debug)]
pub struct PathStep {
    pub module: ModuleRef,
    pub symbol: PathSymbol,
    pub decl: PathDecl,
    pub parts: Vec<String>,
    pub next: Vec<DefinitionPath>,
}

/// What a definition is.
#[derive(Debug)]
pub enum DefinitionKind {
    Definition,
    ExportStar(FileRef),
}

/// A definition.
#[derive(Debug)]
pub struct Definition {
    pub module: ModuleRef,
    pub symbol: PathSymbol,
    pub kind: DefinitionKind,
}

/// The way from an export to its definition, where it is found.
#[derive(Debug)]
pub enum DefinitionPath {
    Path(PathStep),
    Definition(Definition),
    Unresolved(ModuleRef),
}

/// How many steps a way has.
pub open spec fn steps(p: DefinitionPath) -> nat
    decreases p,
{
    match p {
        DefinitionPath::Path(step) => 1 + steps_upto(step.next@, step.next@.len()),
        _ => 1,
    }
}

/// How many steps the first `n` ways have.
pub open spec fn steps_upto(s: Seq<DefinitionPath>, n: nat) -> nat
    decreases s, n,
{
    if n == 0 || n > s.len() {
        0
    } else {
        steps_upto(s, (n - 1) as nat) + steps(s[n - 1])
    }
}

/// The dependency on a module on the web that a reference to a file is, if it is
/// one.
pub open spec fn remote_target(module: ModuleRef, file_ref: FileRef) -> Option<Target> {
    match file_ref.resolved {
        Some(specifier) => if is_remote_url(specifier@) {
            Some(
                Target::Remote {
                    referrer: module.module_id.0,
                    specifier_text: file_ref.specifier@,
                    resolved_specifier: specifier@,
                    name: dep_name(file_ref.name),
                },
            )
        } else {
            None
        },
        None => None,
    }
}

/// The first reference to a module on the web or definition on a way, where it
/// decides what the export stands for.
pub open spec fn decided(p: DefinitionPath) -> Option<Target> {
    match p {
        DefinitionPath::Path(step) => match step.decl {
            PathDecl::FileRef(file_ref) => remote_target(step.module, file_ref),
            _ => None,
        },
        DefinitionPath::Definition(d) => {
            let star = match d.kind {
                DefinitionKind::ExportStar(file_ref) => remote_target(d.module, file_ref),
                DefinitionKind::Definition => None,
            };
            if star is Some {
                star
            } else if d.symbol.file_dep is Some {
                match d.symbol.dep_module_symbol {
                    Some(id) => Some(Target::Symbol(id)),
                    None => None,
                }
            } else {
                Some(Target::Symbol(d.symbol.id))
            }
        },
        DefinitionPath::Unresolved(_) => None,
    }
}

/// Whether a step can be dealt with: a definition is no step, and a definition that
/// is imported is imported with everything.
pub open spec fn step_supported(p: DefinitionPath) -> bool {
    match p {
        DefinitionPath::Path(step) => !(step.decl is Definition),
        DefinitionPath::Definition(d) => {
            let star = match d.kind {
                DefinitionKind::ExportStar(file_ref) => remote_target(d.module, file_ref),
                DefinitionKind::Definition => None,
            };
            star is None && d.symbol.file_dep is Some ==> d.symbol.file_dep.unwrap()@.name is None
        },
        DefinitionPath::Unresolved(_) => true,
    }
}

/// Where a way goes on.
pub open spec fn next_of(p: DefinitionPath) -> Seq<DefinitionPath> {
    match p {
        DefinitionPath::Path(step) => step.next@,
        _ => Seq::empty(),
    }
}

/// What following ways comes to.
pub enum Followed {
    Found(Target),
    Lost,
    Unsupported,
}

proof fn lemma_steps_add(a: Seq<DefinitionPath>, b: Seq<DefinitionPath>, n: nat)
    requires
        n <= b.len(),
    ensures
        steps_upto(a + b, a.len() + n) == steps_upto(a, a.len()) + steps_upto(b, n),
    decreases n,
{
    if n == 0 {
        lemma_steps_same(a + b, a, a.len());
    } else {
        lemma_steps_add(a, b, (n - 1) as nat);
        assert((a + b)[a.len() + n - 1] == b[n - 1]);
    }
}

proof fn lemma_steps_same(a: Seq<DefinitionPath>, b: Seq<DefinitionPath>, n: nat)
    requires
        n <= a.len(),
        n <= b.len(),
        forall|i: int| 0 <= i < n ==> a[i] == b[i],
    ensures
        steps_upto(a, n) == steps_upto(b, n),
    decreases n,
{
    if n > 0 {
        lemma_steps_same(a, b, (n - 1) as nat);
    }
}

proof fn lemma_steps_skip(a: Seq<DefinitionPath>)
    requires
        a.len() > 0,
    ensures
        steps_upto(a, a.len()) == steps(a[0]) + steps_upto(a.skip(1), (a.len() - 1) as nat),
{
    let first = seq![a[0]];
    assert(first + a.skip(1) =~= a);
    lemma_steps_add(first, a.skip(1), (a.len() - 1) as nat);
    assert(steps_upto(first, 0) == 0);
    assert(steps_upto(first, 1) == steps_upto(first, 0) + steps(first[0]));
}

proof fn lemma_steps_next(pending: Seq<DefinitionPath>)
    requires
        pending.len() > 0,
    ensures
        ({
            let rest = pending.skip(1) + next_of(pending[0]);
            steps_upto(rest, rest.len()) < steps_upto(pending, pending.len())
        }),
{
    let next = next_of(pending[0]);
    lemma_steps_skip(pending);
    lemma_steps_add(pending.skip(1), next, next.len());
}

/// What following the ways comes to, level by level: the first step that decides
/// does.
pub open spec fn followed(pending: Seq<DefinitionPath>) -> Followed
    decreases steps_upto(pending, pending.len()),
    via followed_ends
{
    if pending.len() == 0 {
        Followed::Lost
    } else if !step_supported(pending[0]) {
        Followed::Unsupported
    } else {
        match decided(pending[0]) {
            Some(target) => Followed::Found(target),
            None => followed(pending.skip(1) + next_of(pending[0])),
        }
    }
}

#[via_fn]
proof fn followed_ends(pending: Seq<DefinitionPath>) {
    if pending.len() > 0 {
        lemma_steps_next(pending);
    }
}

impl ModuleSpecifier {
    fn remote(resolved: &Option<ModuleSpecifier>) -> (r: Option<&ModuleSpecifier>)
        ensures
            r is Some <==> (resolved is Some && is_remote_url(resolved.unwrap()@)),
            r matches Some(specifier) ==> *specifier == resolved.unwrap(),
    {
        match resolved {
            Some(specifier) => if is_remote_specifier(specifier) {
                Some(specifier)
            } else {
                None
            },
            None => None,
        }
    }
}

impl FileDepName {
    pub fn dup(&self) -> (r: FileDepName)
        ensures
            dep_name(r) == dep_name(*self),
    {
        match self {
            FileDepName::All => FileDepName::All,
            FileDepName::Name(name) => FileDepName::Name(name.clone()),
        }
    }
}

/// The dependency on a module on the web that a reference to a file is, if it is
/// one.
fn remote_dep(module: &ModuleRef, file_ref: &FileRef) -> (r: Option<SymbolIdOrRemoteDep>)
    ensures
        match r {
            Some(dep) => remote_target(*module, *file_ref) == Some(dep@),
            None => remote_target(*module, *file_ref) is None,
        },
{
    match ModuleSpecifier::remote(&file_ref.resolved) {
        Some(specifier) => Some(
            SymbolIdOrRemoteDep::RemoteDep(
                RemoteDep {
                    referrer: module.module_id,
                    specifier_text: file_ref.specifier.clone(),
                    resolved_specifier: specifier.dup(),
                    name: file_ref.name.dup(),
                },
            ),
        ),
        None => None,
    }
}

/// What a step decides, if it does.
fn decide(p: &DefinitionPath) -> (r: Option<SymbolIdOrRemoteDep>)
    ensures
        match r {
            Some(dep) => decided(*p) == Some(dep@),
            None => decided(*p) is None,
        },
{
    match p {
        DefinitionPath::Path(step) => match &step.decl {
            PathDecl::FileRef(file_ref) => remote_dep(&step.module, file_ref),
            _ => None,
        },
        DefinitionPath::Definition(d) => {
            match &d.kind {
                DefinitionKind::ExportStar(file_ref) => {
                    let star: Option<SymbolIdOrRemoteDep> = remote_dep(&d.module, file_ref);
                    if star.is_some() {
                        return star;
                    }
                },
                DefinitionKind::Definition => {},
            }
            if d.symbol.file_dep.is_some() {
                match d.symbol.dep_module_symbol {
                    Some(id) => Some(SymbolIdOrRemoteDep::Symbol(id)),
                    None => None,
                }
            } else {
                Some(SymbolIdOrRemoteDep::Symbol(d.symbol.id))
            }
        },
        DefinitionPath::Unresolved(_) => None,
    }
}

/// The ways that references refer to.
pub open spec fn referred(s: Seq<&DefinitionPath>) -> Seq<DefinitionPath> {
    Seq::new(s.len(), |i: int| *s[i])
}

/// Follows ways from an export, level by level, to the first step that tells what
/// it stands for.
pub fn resolve_paths_to_remote_path(paths: &Vec<DefinitionPath>) -> (r: Option<
    SymbolIdOrRemoteDep,
>)
    requires
        !(followed(paths@) is Unsupported),
    ensures
        match r {
            Some(dep) => followed(paths@) == Followed::Found(dep@),
            None => followed(paths@) == Followed::Lost,
        },
{
    let mut pending: Vec<&DefinitionPath> = Vec::new();
    add_paths(paths, &mut pending);
    assert(referred(pending@) =~= paths@);
    while pending.len() > 0
        invariant
            followed(paths@) == followed(referred(pending@)),
            !(followed(paths@) is Unsupported),
        decreases steps_upto(referred(pending@), pending@.len()),
    {
        let ghost before = referred(pending@);
        proof {
            lemma_steps_next(before);
        }
        let path: &DefinitionPath = pending.remove(0);
        assert(*path == before[0]);
        assert(referred(pending@) =~= before.skip(1));
        let found: Option<SymbolIdOrRemoteDep> = decide(path);
        if found.is_some() {
            return found;
        }
        match path {
            DefinitionPath::Path(step) => {
                add_paths(&step.next, &mut pending);
            },
            _ => {
                assert(before.skip(1) + Seq::<DefinitionPath>::empty() =~= before.skip(1));
            },
        }
        assert(referred(pending@) == before.skip(1) + next_of(before[0]));
    }
    None
}

/// Whether a step can be dealt with.
fn supports_step(p: &DefinitionPath) -> (r: bool)
    ensures
        r == step_supported(*p),
{
    match p {
        DefinitionPath::Path(step) => match &step.decl {
            PathDecl::Definition => false,
            _ => true,
        },
        DefinitionPath::Definition(d) => {
            let star: bool = match &d.kind {
                DefinitionKind::ExportStar(file_ref) => remote_dep(&d.module, file_ref).is_some(),
                DefinitionKind::Definition => false,
            };
            star || match &d.symbol.file_dep {
                Some(dep) => match &dep.name {
                    FileDepName::All => true,
                    FileDepName::Name(_) => false,
                },
                None => true,
            }
        },
        DefinitionPath::Unresolved(_) => true,
    }
}

/// Whether the ways from an export can be followed.
pub fn supports_paths(paths: &Vec<DefinitionPath>) -> (r: bool)
    ensures
        r == !(followed(paths@) is Unsupported),
{
    let mut pending: Vec<&DefinitionPath> = Vec::new();
    add_paths(paths, &mut pending);
    assert(referred(pending@) =~= paths@);
    while pending.len() > 0
        invariant
            followed(paths@) == followed(referred(pending@)),
        decreases steps_upto(referred(pending@), pending@.len()),
    {
        let ghost before = referred(pending@);
        proof {
            lemma_steps_next(before);
        }
        let path: &DefinitionPath = pending.remove(0);
        assert(*path == before[0]);
        assert(referred(pending@) =~= before.skip(1));
        if !supports_step(path) {
            return false;
        }
        if decide(path).is_some() {
            return true;
        }
        match path {
            DefinitionPath::Path(step) => {
                add_paths(&step.next, &mut pending);
            },
            _ => {
                assert(before.skip(1) + Seq::<DefinitionPath>::empty() =~= before.skip(1));
            },
        }
        assert(referred(pending@) == before.skip(1) + next_of(before[0]));
    }
    true
}

fn add_paths<'a>(paths: &'a Vec<DefinitionPath>, pending: &mut Vec<&'a DefinitionPath>)
    ensures
        referred(final(pending)@) == referred(old(pending)@) + paths@,
{
    let ghost before = referred(pending@);
    let mut i: usize = 0;
    assert(referred(pending@) =~= before + paths@.take(0));
    while i < paths.len()
        invariant
            i <= paths@.len(),
            referred(pending@) == before + paths@.take(i as int),
        decreases paths@.len() - i,
    {
        let ghost earlier = referred(pending@);
        let path: &'a DefinitionPath = &paths[i];
        pending.push(path);
        assert(referred(pending@) =~= earlier.push(paths@[i as int]));
        i = i + 1;
        assert(referred(pending@) =~= before + paths@.take(i as int));
    }
    assert(paths@.take(i as int) =~= paths@);
}

/// What an export resolves to: a symbol, with the ways to its definition, or an
/// export of another module all of whose exports are exported.
#[derive(Debug)]
pub enum ResolvedExport {
    Export(Vec<DefinitionPath>),
    ReExportAllPath(ReExportAllPath),
}

/// An export by way of a module all of whose exports are exported.
#[derive(Debug)]
pub struct ReExportAllPath {
    pub referrer_module: ModuleRef,
    pub specifier: String,
    pub resolved_module: ModuleSpecifier,
    pub next: Box<ResolvedExport>,
}

/// What an export stands for.
pub open spec fn export_target(name: Seq<char>, e: ResolvedExport) -> Followed
    decreases e,
{
    match e {
        ResolvedExport::Export(paths) => followed(paths@),
        ResolvedExport::ReExportAllPath(path) => if is_remote_url(path.resolved_module@) {
            Followed::Found(
                Target::Remote {
                    referrer: path.referrer_module.module_id.0,
                    specifier_text: path.specifier@,
                    resolved_specifier: path.resolved_module@,
                    name: Some(name),
                },
            )
        } else {
            export_target(name, *path.next)
        },
    }
}

/// Whether it can be told what an export stands for.
pub open spec fn export_supported(name: Seq<char>, e: ResolvedExport) -> bool {
    export_target(name, e) is Found
}

/// An export of a module by its name.
#[derive(Debug)]
pub struct NamedExport {
    pub name: String,
    pub export: ResolvedExport,
}

/// What the first `n` exports stand for, by their names.
pub open spec fn targets_upto(exports: Seq<NamedExport>, n: nat) -> Seq<(Seq<char>, Target)>
    decreases n,
{
    if n == 0 {
        Seq::empty()
    } else {
        let e = exports[n - 1];
        match export_target(e.name@, e.export) {
            Followed::Found(target) => with_entry(
                targets_upto(exports, (n - 1) as nat),
                e.name@,
                target,
            ),
            _ => targets_upto(exports, (n - 1) as nat),
        }
    }
}

/// What a map from names to symbols or dependencies stands for.
pub open spec fn targets_of(s: Seq<(Seq<char>, SymbolIdOrRemoteDep)>) -> Seq<
    (Seq<char>, Target),
> {
    Seq::new(s.len(), |i: int| (s[i].0, s[i].1@))
}

proof fn lemma_targets_entry(
    s: Seq<(Seq<char>, SymbolIdOrRemoteDep)>,
    name: Seq<char>,
    dep: SymbolIdOrRemoteDep,
)
    ensures
        targets_of(with_entry(s, name, dep)) == with_entry(targets_of(s), name, dep@),
{
    crate::collections::lemma_key_place_same(s, targets_of(s), name);
    crate::collections::lemma_key_place(s, name);
    assert(targets_of(with_entry(s, name, dep)) =~= with_entry(targets_of(s), name, dep@));
}

/// What an export stands for.
fn resolve_export(name: &str, export: ResolvedExport) -> (r: SymbolIdOrRemoteDep)
    requires
        export_supported(name@, export),
    ensures
        export_target(name@, export) == Followed::Found(r@),
    decreases export,
{
    match export {
        ResolvedExport::Export(paths) => resolve_paths_to_remote_path(&paths).unwrap(),
        ResolvedExport::ReExportAllPath(path) => if is_remote_specifier(&path.resolved_module) {
            SymbolIdOrRemoteDep::RemoteDep(
                RemoteDep {
                    referrer: path.referrer_module.module_id,
                    specifier_text: path.specifier,
                    resolved_specifier: path.resolved_module,
                    name: FileDepName::Name(name.to_owned()),
                },
            )
        } else {
            resolve_export(name, *path.next)
        },
    }
}

/// Whether it can be told what every export stands for.
pub open spec fn exports_supported(exports: Seq<NamedExport>) -> bool {
    forall|i: int|
        0 <= i < exports.len() ==> export_supported(
            (#[trigger] exports[i]).name@,
            exports[i].export,
        )
}

/// What the exports of a module stand for, by their names.
pub fn analyze_exports(exports: Vec<NamedExport>) -> (r: TextMap<SymbolIdOrRemoteDep>)
    requires
        exports_supported(exports@),
    ensures
        r.wf(),
        targets_of(r@) == targets_upto(exports@, exports@.len()),
{
    let ghost all = exports@;
    let mut exports_to_dep: TextMap<SymbolIdOrRemoteDep> = TextMap::new();
    assert(targets_of(exports_to_dep@) =~= Seq::<(Seq<char>, Target)>::empty());
    let mut exports: Vec<NamedExport> = exports;
    let ghost mut n: nat = 0;
    while exports.len() > 0
        invariant
            n + exports@.len() == all.len(),
            exports@ == all.skip(n as int),
            exports_supported(all),
            exports_to_dep.wf(),
            targets_of(exports_to_dep@) == targets_upto(all, n),
        decreases exports@.len(),
    {
        let export: NamedExport = exports.remove(0);
        assert(export == all[n as int]);
        let dep: SymbolIdOrRemoteDep = resolve_export(export.name.as_str(), export.export);
        proof {
            lemma_targets_entry(exports_to_dep@, export.name@, dep);
            n = n + 1;
            assert(exports@ =~= all.skip(n as int));
        }
        exports_to_dep.insert(export.name, dep);
    }
    exports_to_dep
}

/// A definition, or a reference to a symbol of a module on the web.
#[derive(Debug)]
pub enum DefinitionOrRemoteRef<'a> {
    Definition(&'a Definition),
    RemoteRef(RemoteRef<'a>),
}

/// A reference to a symbol of a module on the web.
#[derive(Debug)]
pub struct RemoteRef<'a> {
    pub specifier: &'a ModuleSpecifier,
    pub file_dep: &'a FileDep,
    pub symbol: UniqueSymbolId,
    pub parts: &'a Vec<String>,
}

/// The module of a step.
pub open spec fn module_of(p: DefinitionPath) -> ModuleRef {
    match p {
        DefinitionPath::Path(step) => step.module,
        DefinitionPath::Definition(d) => d.module,
        DefinitionPath::Unresolved(module) => module,
    }
}

/// The symbol of a step, where it has one.
pub open spec fn symbol_of(p: DefinitionPath) -> Option<UniqueSymbolId> {
    match p {
        DefinitionPath::Path(step) => Some(step.symbol.id),
        DefinitionPath::Definition(d) => Some(d.symbol.id),
        DefinitionPath::Unresolved(_) => None,
    }
}

/// Whether a step leads to a module on the web.
pub open spec fn leads_to_remote(step: PathStep) -> bool {
    step.symbol.file_dep is Some && step.next@.len() > 0 && is_remote_url(
        module_of(step.next@[0]).specifier@,
    )
}

/// What a [`DefinitionOrRemoteRef`] stands for.
pub enum Reference {
    Definition(Definition),
    Remote {
        specifier: Seq<char>,
        file_dep: Dep,
        symbol: UniqueSymbolId,
        parts: Seq<Seq<char>>,
    },
}

impl<'a> DefinitionOrRemoteRef<'a> {
    pub open spec fn view(&self) -> Reference {
        match self {
            DefinitionOrRemoteRef::Definition(d) => Reference::Definition(**d),
            DefinitionOrRemoteRef::RemoteRef(r) => Reference::Remote {
                specifier: r.specifier@,
                file_dep: r.file_dep@,
                symbol: r.symbol,
                parts: crate::text::texts(r.parts@),
            },
        }
    }
}

/// The definitions to which a way leads, and the references to modules on the web
/// at which it ends, in order.
pub open spec fn references(p: DefinitionPath) -> Seq<Reference>
    decreases p,
{
    match p {
        DefinitionPath::Path(step) => if leads_to_remote(step) {
            seq![
                Reference::Remote {
                    specifier: module_of(step.next@[0]).specifier@,
                    file_dep: step.symbol.file_dep.unwrap()@,
                    symbol: symbol_of(step.next@[0]).unwrap(),
                    parts: crate::text::texts(step.parts@),
                },
            ]
        } else {
            references_upto(step.next@, step.next@.len())
        },
        DefinitionPath::Definition(d) => seq![Reference::Definition(d)],
        DefinitionPath::Unresolved(_) => Seq::empty(),
    }
}

/// The definitions to which the first `n` ways lead, and the references to modules
/// on the web at which they end, in order.
pub open spec fn references_upto(s: Seq<DefinitionPath>, n: nat) -> Seq<Reference>
    decreases s, n,
{
    if n == 0 || n > s.len() {
        Seq::empty()
    } else {
        references_upto(s, (n - 1) as nat) + references(s[n - 1])
    }
}

/// Whether a way can be followed to its end: it does not end in nothing.
pub open spec fn resolves_fully(p: DefinitionPath) -> bool
    decreases p,
{
    match p {
        DefinitionPath::Path(step) => if leads_to_remote(step) {
            symbol_of(step.next@[0]) is Some
        } else {
            forall|i: int|
                0 <= i < step.next@.len() ==> resolves_fully(#[trigger] step.next@[i])
        },
        DefinitionPath::Definition(_) => true,
        DefinitionPath::Unresolved(_) => false,
    }
}

/// What a sequence of references stands for.
pub open spec fn references_of(s: Seq<DefinitionOrRemoteRef>) -> Seq<Reference> {
    Seq::new(s.len(), |i: int| s[i]@)
}

fn module_ref(p: &DefinitionPath) -> (r: &ModuleRef)
    ensures
        *r == module_of(*p),
{
    match p {
        DefinitionPath::Path(step) => &step.module,
        DefinitionPath::Definition(d) => &d.module,
        DefinitionPath::Unresolved(module) => module,
    }
}

fn symbol_id(p: &DefinitionPath) -> (r: Option<UniqueSymbolId>)
    ensures
        r == symbol_of(*p),
{
    match p {
        DefinitionPath::Path(step) => Some(step.symbol.id),
        DefinitionPath::Definition(d) => Some(d.symbol.id),
        DefinitionPath::Unresolved(_) => None,
    }
}

/// Adds the definitions to which a way leads, and the references to modules on the
/// web at which it ends, in order.
fn add_references<'a>(p: &'a DefinitionPath, r: &mut Vec<DefinitionOrRemoteRef<'a>>)
    requires
        resolves_fully(*p),
    ensures
        references_of(final(r)@) == references_of(old(r)@) + references(*p),
    decreases p,
{
    let ghost before = references_of(r@);
    match p {
        DefinitionPath::Path(step) => {
            match &step.symbol.file_dep {
                Some(file_dep) => {
                    if step.next.len() > 0 && is_remote_specifier(
                        &module_ref(&step.next[0]).specifier,
                    ) {
                        let reference = DefinitionOrRemoteRef::RemoteRef(
                            RemoteRef {
                                specifier: &module_ref(&step.next[0]).specifier,
                                file_dep,
                                symbol: symbol_id(&step.next[0]).unwrap(),
                                parts: &step.parts,
                            },
                        );
                        r.push(reference);
                        assert(references_of(r@) =~= before + references(*p));
                        return ;
                    }
                },
                None => {},
            }
            let mut i: usize = 0;
            assert(references_of(r@) =~= before + references_upto(step.next@, 0));
            while i < step.next.len()
                invariant
                    i <= step.next@.len(),
                    decreases_to!(p => step),
                    forall|i: int|
                        0 <= i < step.next@.len() ==> resolves_fully(#[trigger] step.next@[i]),
                    references_of(r@) == before + references_upto(step.next@, i as nat),
                decreases step.next@.len() - i,
            {
                assert(resolves_fully(step.next@[i as int]));
                add_references(&step.next[i], r);
                i = i + 1;
                assert(references_of(r@) =~= before + references_upto(step.next@, i as nat));
            }
        },
        DefinitionPath::Definition(d) => {
            r.push(DefinitionOrRemoteRef::Definition(d));
            assert(references_of(r@) =~= before + references(*p));
        },
        DefinitionPath::Unresolved(_) => {},
    }
}

/// The definitions to which the ways lead, and the references to modules on the web
/// at which they end, in order.
pub fn go_to_definition_or_remote_ref<'a>(paths: &'a Vec<DefinitionPath>) -> (r: Vec<
    DefinitionOrRemoteRef<'a>,
>)
    requires
        forall|i: int| 0 <= i < paths@.len() ==> resolves_fully(#[trigger] paths@[i]),
    ensures
        references_of(r@) == references_upto(paths@, paths@.len()),
{
    let mut r: Vec<DefinitionOrRemoteRef<'a>> = Vec::new();
    let mut i: usize = 0;
    assert(references_of(r@) =~= Seq::<Reference>::empty());
    while i < paths.len()
        invariant
            i <= paths@.len(),
            forall|i: int| 0 <= i < paths@.len() ==> resolves_fully(#[trigger] paths@[i]),
            references_of(r@) == references_upto(paths@, i as nat),
        decreases paths@.len() - i,
    {
        assert(resolves_fully(paths@[i as int]));
        add_references(&paths[i], &mut r);
        i = i + 1;
    }
    r
}

}
