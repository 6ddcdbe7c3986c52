use libpack::collections::TextMap;
use libpack::dts::analyzer::{
    analyze_exports, go_to_definition_or_remote_ref, resolve_paths_to_remote_path, supports_paths,
    Definition, DefinitionKind, DefinitionOrRemoteRef, DefinitionPath, FileRef, ModuleRef,
    NamedExport, PathDecl, PathStep, PathSymbol, ReExportAllPath, ResolvedExport,
    SymbolIdOrRemoteDep, UniqueSymbolId,
};
use libpack::dts::binder::{
    fill_module, find_decl_ids, FileDep, FileDepName, ModuleAnalyzer, ModuleId, ModuleSymbol,
    ParsedSource, SymbolId,
};
use libpack::dts::trace_checks::can_trace;
use libpack::dts::tracer::{
    exports_end, trace, trace_exports_inner, try_trace, ExportsToTrace, TraceModule,
};
use libpack::pack_js::analyze::Dependency;
use libpack::specifier::ModuleSpecifier;
use libpack::syntax::{Flags, Id, Kind, Node, Role, SourceRange, Span};

fn url(text: &str) -> ModuleSpecifier {
    ModuleSpecifier::parse(text).unwrap()
}

fn node(kind: Kind, role: Role, text: &str, children: Vec<Node>) -> Node {
    Node {
        kind,
        role,
        span: Span { lo: 0, hi: 0, ctxt: 0 },
        text: text.to_string(),
        flags: Flags::none(),
        origin: 0,
        children,
    }
}

fn with_role(role: Role, mut n: Node) -> Node {
    n.role = role;
    n
}

fn spanned(lo: u32, hi: u32, mut n: Node) -> Node {
    n.span.lo = lo;
    n.span.hi = hi;
    n
}

fn name(role: Role, text: &str) -> Node {
    node(Kind::Ident, role, text, vec![])
}

fn type_ref(text: &str) -> Node {
    node(
        Kind::TsTypeRef,
        Role::Type,
        "",
        vec![node(Kind::EntityName, Role::TypeName, text, vec![])],
    )
}

fn alias(lo: u32, hi: u32, text: &str, of: &str) -> Node {
    spanned(
        lo,
        hi,
        node(
            Kind::TsTypeAliasDecl,
            Role::Item,
            "",
            vec![name(Role::Name, text), type_ref(of)],
        ),
    )
}

fn export(lo: u32, hi: u32, decl: Node) -> Node {
    spanned(lo, hi, node(Kind::ExportDecl, Role::Item, "", vec![with_role(Role::Decl, decl)]))
}

fn import(lo: u32, hi: u32, specifiers: Vec<Node>, source: &str) -> Node {
    let mut children = specifiers;
    children.push(node(Kind::Str, Role::Source, source, vec![]));
    spanned(lo, hi, node(Kind::ImportDecl, Role::Item, "", children))
}

fn import_named(lo: u32, hi: u32, local: &str) -> Node {
    spanned(lo, hi, node(Kind::ImportNamed, Role::Specifier, "", vec![name(Role::Local, local)]))
}

fn module(items: Vec<Node>) -> Node {
    node(Kind::Module, Role::Other, "", items)
}

fn id(text: &str) -> Id {
    Id { name: text.to_string(), ctxt: 0 }
}

fn bound(module_id: usize, items: Vec<Node>) -> ModuleSymbol {
    let mut symbols = ModuleSymbol::new(ModuleId(module_id));
    fill_module(&mut symbols, &module(items));
    symbols
}

// binding

#[test]
fn declarations_become_symbols() {
    let symbols = bound(
        4,
        vec![
            import(1, 20, vec![import_named(8, 10, "T")], "./t.ts"),
            export(21, 40, alias(28, 40, "A", "B")),
            alias(41, 60, "B", "T"),
            alias(61, 80, "C", "A"),
        ],
    );
    assert_eq!(symbols.module_id().to_code_string(), "pack4");
    assert_eq!(symbols.module_id().to_default_code_string(), "pack4Default");
    let a = symbols.export_symbol_id("A").unwrap();
    assert_eq!(symbols.export_symbols(), vec![a]);
    assert!(symbols.export_symbol_id("B").is_none());
    assert_eq!(symbols.symbol_id_from_swc(&id("A")), Some(a));
    let b = symbols.symbol_id_from_swc(&id("B")).unwrap();
    let t = symbols.symbol_id_from_swc(&id("T")).unwrap();
    assert!(symbols.symbol_id_from_swc(&id("D")).is_none());
    let deps = |id: SymbolId| -> Vec<String> {
        symbols.symbol(id).unwrap().swc_dep_ids().iter().map(|id| id.name.clone()).collect()
    };
    assert_eq!(deps(a), vec!["B"]);
    assert_eq!(deps(b), vec!["T"]);
    let file_dep = symbols.symbol(t).unwrap().file_dep().unwrap();
    assert_eq!(file_dep.specifier, "./t.ts");
    assert!(matches!(&file_dep.name, FileDepName::Name(name) if name == "T"));
    assert!(symbols.symbol(a).unwrap().file_dep().is_none());
    assert!(symbols.symbol(SymbolId(99)).is_none());
}

#[test]
fn only_ranges_of_public_symbols_are_public() {
    let mut symbols =
        bound(0, vec![export(1, 20, alias(8, 20, "A", "B")), alias(21, 40, "B", "T")]);
    assert!(symbols.public_source_ranges().is_empty());
    let b = symbols.symbol_id_from_swc(&id("B")).unwrap();
    assert!(symbols.symbol_mut(b).unwrap().mark_public());
    assert!(!symbols.symbol_mut(b).unwrap().mark_public());
    assert!(symbols.symbol(b).unwrap().is_public());
    assert_eq!(symbols.public_source_ranges(), vec![SourceRange { start: 21, end: 40 }]);
    assert!(symbols.symbol_mut(SymbolId(99)).is_none());
}

#[test]
fn every_variable_of_a_pattern_is_declared() {
    let binding = |role: Role, text: &str| {
        node(Kind::BindingIdent, role, "", vec![name(Role::Name, text)])
    };
    let pattern = node(
        Kind::ArrayPat,
        Role::Name,
        "",
        vec![
            binding(Role::Elem, "a"),
            node(Kind::RestPat, Role::Elem, "", vec![binding(Role::Arg, "b")]),
        ],
    );
    let decl = node(
        Kind::VarDecl,
        Role::Item,
        "",
        vec![
            node(Kind::VarDeclarator, Role::Declarator, "", vec![pattern]),
            node(Kind::VarDeclarator, Role::Declarator, "", vec![binding(Role::Name, "c")]),
        ],
    );
    let mut ids = Vec::new();
    find_decl_ids(&decl, &mut ids);
    let names: Vec<&str> = ids.iter().map(|id| id.name.as_str()).collect();
    assert_eq!(names, vec!["a", "b", "c"]);
}

#[test]
fn declared_types_are_depended_on() {
    let typed = |role: Role, text: &str, of: &str| {
        node(
            Kind::BindingIdent,
            role,
            "",
            vec![
                name(Role::Name, text),
                node(Kind::TsTypeAnn, Role::TypeAnn, "", vec![type_ref(of)]),
            ],
        )
    };
    let read = |role: Role, text: &str| node(Kind::IdentExpr, role, text, vec![]);
    let constant = node(
        Kind::VarDecl,
        Role::Item,
        "",
        vec![node(
            Kind::VarDeclarator,
            Role::Declarator,
            "",
            vec![typed(Role::Name, "a", "A"), read(Role::Init, "b")],
        )],
    );
    let with_default = node(
        Kind::AssignPat,
        Role::Pattern,
        "",
        vec![typed(Role::Left, "p", "P"), read(Role::Right, "q")],
    );
    let function = node(
        Kind::FnDecl,
        Role::Item,
        "",
        vec![
            name(Role::Name, "f"),
            node(
                Kind::Function,
                Role::Function,
                "",
                vec![
                    node(Kind::Param, Role::Param, "", vec![with_default]),
                    node(Kind::Param, Role::Param, "", vec![typed(Role::Pattern, "r", "R")]),
                ],
            ),
        ],
    );
    let symbols = bound(0, vec![export(1, 20, constant), export(21, 40, function)]);
    let deps = |text: &str| -> Vec<String> {
        let id = symbols.symbol_id_from_swc(&id(text)).unwrap();
        let mut names: Vec<String> =
            symbols.symbol(id).unwrap().swc_dep_ids().iter().map(|id| id.name.clone()).collect();
        names.sort();
        names
    };
    assert_eq!(deps("a"), vec!["A", "b"]);
    assert_eq!(deps("f"), vec!["P", "R"]);
}

#[test]
fn modules_are_analyzed_once() {
    let source = |text: &str| ParsedSource {
        specifier: url("file:///a.ts"),
        module: module(vec![export(1, 20, alias(8, 20, text, "B"))]),
    };
    let mut analyzer = ModuleAnalyzer::new();
    assert!(analyzer.get(&url("file:///a.ts")).is_none());
    assert!(analyzer.get_or_analyze(&source("A")).export_symbol_id("A").is_some());
    let again = analyzer.get_or_analyze(&source("Other"));
    assert!(again.export_symbol_id("Other").is_none());
    assert_eq!(again.module_id().to_code_string(), "pack0");
    let other = ParsedSource { specifier: url("file:///b.ts"), module: module(vec![]) };
    assert_eq!(analyzer.get_or_analyze(&other).module_id().to_code_string(), "pack1");
    assert!(analyzer.get(&url("file:///a.ts")).is_some());
    let unsupported = ParsedSource {
        specifier: url("file:///a.ts"),
        module: module(vec![node(Kind::ExportAll, Role::Item, "", vec![])]),
    };
    assert!(analyzer.get_or_analyze(&unsupported).export_symbol_id("A").is_some());
}

#[test]
fn new_modules_have_no_exports_of_others() {
    let symbols = bound(0, vec![export(1, 20, alias(8, 20, "A", "B"))]);
    assert!(symbols.default_export_symbol_id.is_none());
    assert!(symbols.re_exports.is_empty());
    assert_eq!(symbols.traced_re_exports.len(), 0);
    let mut kept = star(0, &["./t.ts"]);
    fill_module(&mut kept, &module(vec![export(1, 20, alias(8, 20, "A", "B"))]));
    assert_eq!(kept.re_exports, vec!["./t.ts"]);
}

// tracing

fn add(
    graph: &mut TextMap<TraceModule>,
    specifier: &str,
    dependencies: Vec<(&str, &str)>,
    symbols: ModuleSymbol,
) {
    graph.insert(
        specifier.to_string(),
        TraceModule {
            dependencies: dependencies
                .into_iter()
                .map(|(text, to)| Dependency { text: text.to_string(), specifier: url(to) })
                .collect(),
            symbols,
            diagnostic: None,
        },
    );
}

fn is_public(graph: &TextMap<TraceModule>, specifier: &str, text: &str) -> bool {
    let symbols = &graph.get(specifier).unwrap().symbols;
    let id = symbols.symbol_id_from_swc(&id(text)).unwrap();
    symbols.symbol(id).unwrap().is_public()
}

fn two_modules() -> TextMap<TraceModule> {
    let mut graph = TextMap::new();
    add(
        &mut graph,
        "file:///mod.ts",
        vec![("./t.ts", "file:///t.ts")],
        bound(
            0,
            vec![
                import(1, 20, vec![import_named(8, 10, "T")], "./t.ts"),
                export(21, 40, alias(28, 40, "A", "B")),
                alias(41, 60, "B", "T"),
                alias(61, 80, "C", "A"),
            ],
        ),
    );
    add(
        &mut graph,
        "file:///t.ts",
        vec![],
        bound(
            1,
            vec![
                export(1, 20, alias(8, 20, "T", "U")),
                alias(21, 40, "U", "string"),
                export(41, 60, alias(48, 60, "V", "U")),
            ],
        ),
    );
    graph
}

#[test]
fn what_the_root_exports_is_public_and_what_that_depends_on() {
    let traced = match trace(two_modules(), url("file:///mod.ts")) {
        Ok(traced) => traced.graph,
        Err(message) => panic!("{}", message),
    };
    assert!(is_public(&traced, "file:///mod.ts", "A"));
    assert!(is_public(&traced, "file:///mod.ts", "B"));
    assert!(is_public(&traced, "file:///mod.ts", "T"));
    assert!(!is_public(&traced, "file:///mod.ts", "C"));
    assert!(is_public(&traced, "file:///t.ts", "T"));
    assert!(is_public(&traced, "file:///t.ts", "U"));
    assert!(!is_public(&traced, "file:///t.ts", "V"));
}

#[test]
fn modules_that_cannot_be_read_are_told() {
    let mut graph = two_modules();
    graph.value_at_mut(1).diagnostic = Some("unexpected token".to_string());
    match trace(graph, url("file:///mod.ts")) {
        Ok(_) => panic!("traced"),
        Err(message) => assert_eq!(message, "unexpected token"),
    }
    let mut graph = two_modules();
    graph.value_at_mut(0).diagnostic = Some("unexpected token".to_string());
    assert!(trace(graph, url("file:///t.ts")).is_ok());
}

#[test]
fn all_exports_of_another_module_are_traced() {
    let mut graph = two_modules();
    let mut root = bound(2, vec![]);
    root.re_exports = vec!["./t.ts".to_string()];
    add(&mut graph, "file:///all.ts", vec![("./t.ts", "file:///t.ts")], root);
    let traced = match trace(graph, url("file:///all.ts")) {
        Ok(traced) => traced.graph,
        Err(message) => panic!("{}", message),
    };
    assert!(is_public(&traced, "file:///t.ts", "T"));
    assert!(is_public(&traced, "file:///t.ts", "U"));
    assert!(is_public(&traced, "file:///t.ts", "V"));
    assert!(!is_public(&traced, "file:///mod.ts", "A"));
}

fn star(module_id: usize, from: &[&str]) -> ModuleSymbol {
    let mut symbols = bound(module_id, vec![]);
    symbols.re_exports = from.iter().map(|text| text.to_string()).collect();
    symbols
}

#[test]
fn circles_of_exports_that_are_not_reached_do_no_harm() {
    let mut graph = two_modules();
    add(&mut graph, "file:///c.ts", vec![("./d.ts", "file:///d.ts")], star(2, &["./d.ts"]));
    add(&mut graph, "file:///d.ts", vec![("./c.ts", "file:///c.ts")], star(3, &["./c.ts"]));
    assert!(can_trace(&graph, &url("file:///mod.ts")));
    let traced = match trace(graph, url("file:///mod.ts")) {
        Ok(traced) => traced.graph,
        Err(message) => panic!("{}", message),
    };
    assert!(is_public(&traced, "file:///t.ts", "U"));
}

/// A module that exports a type and everything of itself.
fn itself(module_id: usize) -> ModuleSymbol {
    let mut symbols = bound(module_id, vec![export(1, 20, alias(8, 20, "T", "string"))]);
    symbols.re_exports = vec!["./circle.ts".to_string()];
    symbols
}

fn circle() -> TextMap<TraceModule> {
    let mut graph = TextMap::new();
    add(&mut graph, "file:///circle.ts", vec![("./circle.ts", "file:///circle.ts")], itself(0));
    add(
        &mut graph,
        "file:///one.ts",
        vec![("./circle.ts", "file:///circle.ts")],
        bound(
            1,
            vec![
                import(1, 20, vec![import_named(8, 10, "T")], "./circle.ts"),
                export(21, 40, alias(28, 40, "A", "T")),
            ],
        ),
    );
    add(
        &mut graph,
        "file:///other.ts",
        vec![("./circle.ts", "file:///circle.ts")],
        bound(
            2,
            vec![
                import(1, 20, vec![import_named(8, 10, "X")], "./circle.ts"),
                export(21, 40, alias(28, 40, "A", "X")),
            ],
        ),
    );
    graph
}

#[test]
fn names_that_are_found_before_a_circle_are_traced() {
    let graph = circle();
    assert!(can_trace(&graph, &url("file:///one.ts")));
    let traced = match trace(graph, url("file:///one.ts")) {
        Ok(traced) => traced.graph,
        Err(message) => panic!("{}", message),
    };
    assert!(is_public(&traced, "file:///one.ts", "A"));
    assert!(is_public(&traced, "file:///circle.ts", "T"));
}

#[test]
fn circles_that_are_gone_through_are_told() {
    assert!(try_trace(circle(), url("file:///one.ts")).is_some());
    assert!(try_trace(circle(), url("file:///other.ts")).is_none());
    assert!(try_trace(circle(), url("file:///circle.ts")).is_none());
    assert!(matches!(try_trace(two_modules(), url("file:///mod.ts")), Some(Ok(_))));
}

#[test]
fn searches_for_exports_end_unless_they_go_round() {
    let graph = circle();
    let none = TextMap::new();
    let specifier = url("file:///circle.ts");
    let named = |names: &[&str]| {
        ExportsToTrace::Named(names.iter().map(|name| name.to_string()).collect())
    };
    assert!(exports_end(&graph, &none, &specifier, &named(&["T"])));
    assert!(exports_end(&graph, &none, &specifier, &named(&["default"])));
    assert!(exports_end(&graph, &none, &specifier, &named(&[])));
    assert!(!exports_end(&graph, &none, &specifier, &named(&["T", "X"])));
    assert!(!exports_end(&graph, &none, &specifier, &ExportsToTrace::Star));
    assert!(!exports_end(&graph, &none, &specifier, &ExportsToTrace::AllWithDefault));
    let mut analyzed = TextMap::new();
    let found =
        trace_exports_inner(&graph, &mut analyzed, &specifier, &named(&["T", "default"])).unwrap();
    assert_eq!(found.len(), 1);
    assert_eq!(found[0].name, "T");
    assert_eq!(found[0].specifier.text, "file:///circle.ts");
    assert_eq!(found[0].module_id, ModuleId(0));
    assert_eq!(analyzed.len(), 1);
}

#[test]
fn chains_as_long_as_the_graph_are_searched() {
    let mut graph = TextMap::new();
    add(&mut graph, "file:///a.ts", vec![("./b.ts", "file:///b.ts")], star(0, &["./b.ts"]));
    add(&mut graph, "file:///b.ts", vec![("./c.ts", "file:///c.ts")], star(1, &["./c.ts"]));
    add(
        &mut graph,
        "file:///c.ts",
        vec![],
        bound(2, vec![export(1, 20, alias(8, 20, "T", "string"))]),
    );
    let mut analyzed = TextMap::new();
    let specifier = url("file:///a.ts");
    let found =
        trace_exports_inner(&graph, &mut analyzed, &specifier, &ExportsToTrace::Star).unwrap();
    assert_eq!(found.len(), 1);
    assert_eq!(found[0].specifier.text, "file:///c.ts");
    assert_eq!(found[0].module_id, ModuleId(2));
    assert_eq!(analyzed.len(), 3);
}

#[test]
fn graphs_that_can_be_traced_are_told() {
    let graph = two_modules();
    assert!(can_trace(&graph, &url("file:///mod.ts")));
    assert!(!can_trace(&graph, &url("file:///other.ts")));
    let mut graph = two_modules();
    add(&mut graph, "file:///all.ts", vec![("./t.ts", "file:///t.ts")], star(2, &["./t.ts"]));
    assert!(can_trace(&graph, &url("file:///all.ts")));
    add(&mut graph, "file:///x.ts", vec![("./y.ts", "file:///y.ts")], bound(3, vec![]));
    assert!(!can_trace(&graph, &url("file:///all.ts")));
    let mut graph = two_modules();
    let symbols = &mut graph.value_at_mut(0).symbols;
    symbols.symbol_mut(SymbolId(0)).unwrap().mark_public();
    assert!(!can_trace(&graph, &url("file:///mod.ts")));
}

#[test]
fn a_name_is_found_through_exports_of_all() {
    let mut graph = two_modules();
    add(&mut graph, "file:///all.ts", vec![("./t.ts", "file:///t.ts")], star(2, &["./t.ts"]));
    add(
        &mut graph,
        "file:///one.ts",
        vec![("./all.ts", "file:///all.ts")],
        bound(
            3,
            vec![
                import(1, 20, vec![import_named(8, 10, "T")], "./all.ts"),
                export(21, 40, alias(28, 40, "A", "T")),
            ],
        ),
    );
    assert!(can_trace(&graph, &url("file:///one.ts")));
    let traced = match trace(graph, url("file:///one.ts")) {
        Ok(traced) => traced.graph,
        Err(message) => panic!("{}", message),
    };
    assert!(is_public(&traced, "file:///t.ts", "T"));
    assert!(is_public(&traced, "file:///t.ts", "U"));
    assert!(!is_public(&traced, "file:///t.ts", "V"));
    let re_exports = &traced.get("file:///all.ts").unwrap().symbols.traced_re_exports;
    assert_eq!(re_exports.len(), 1);
    assert!(re_exports.get("T").is_some());
}

#[test]
fn default_exports_come_with_all_exports_of_the_root() {
    let mut graph = TextMap::new();
    let mut symbols = bound(0, vec![alias(1, 20, "A", "B"), export(21, 40, alias(28, 40, "C", "D"))]);
    symbols.default_export_symbol_id = symbols.symbol_id_from_swc(&id("A"));
    add(&mut graph, "file:///mod.ts", vec![], symbols);
    let traced = match trace(graph, url("file:///mod.ts")) {
        Ok(traced) => traced.graph,
        Err(message) => panic!("{}", message),
    };
    assert!(is_public(&traced, "file:///mod.ts", "A"));
    assert!(is_public(&traced, "file:///mod.ts", "C"));
}

#[test]
fn exports_of_other_modules_are_noted() {
    let mut graph = two_modules();
    add(&mut graph, "file:///all.ts", vec![("./t.ts", "file:///t.ts")], star(2, &["./t.ts"]));
    let traced = match trace(graph, url("file:///all.ts")) {
        Ok(traced) => traced,
        Err(message) => panic!("{}", message),
    };
    let re_exports = &traced.graph.get("file:///all.ts").unwrap().symbols.traced_re_exports;
    assert_eq!(re_exports.len(), 2);
    let t = re_exports.get("T").unwrap();
    assert_eq!(t.specifier.text, "file:///t.ts");
    assert_eq!(t.module_id, ModuleId(1));
    assert!(re_exports.get("V").is_some());
    assert!(traced.analyzed.contains_key("file:///t.ts"));
    assert!(!traced.analyzed.contains_key("file:///mod.ts"));
    let symbols = &traced.graph.get("file:///t.ts").unwrap().symbols;
    assert_eq!(
        symbols.public_source_ranges(),
        vec![
            SourceRange { start: 1, end: 20 },
            SourceRange { start: 21, end: 40 },
            SourceRange { start: 41, end: 60 },
        ]
    );
}

#[test]
fn whoever_wants_all_wants_no_single_names() {
    let mut exports =
        ExportsToTrace::from_file_dep_name(&FileDepName::Name("a".to_string()));
    exports.add(&FileDepName::Name("b".to_string()));
    assert!(matches!(&exports, ExportsToTrace::Named(names) if names.len() == 2));
    exports.add(&FileDepName::All);
    assert!(matches!(&exports, ExportsToTrace::Star));
    exports.add(&FileDepName::Name("c".to_string()));
    assert!(matches!(&exports, ExportsToTrace::Star));
    let mut all = ExportsToTrace::AllWithDefault;
    all.add(&FileDepName::All);
    assert!(matches!(&all, ExportsToTrace::AllWithDefault));
}

// ways to definitions

fn module_ref(module_id: usize, specifier: &str) -> ModuleRef {
    ModuleRef { module_id: ModuleId(module_id), specifier: url(specifier) }
}

fn symbol(module_id: usize, symbol_id: usize) -> UniqueSymbolId {
    UniqueSymbolId { module_id, symbol_id }
}

fn path_symbol(module_id: usize, symbol_id: usize) -> PathSymbol {
    PathSymbol { id: symbol(module_id, symbol_id), file_dep: None, dep_module_symbol: None }
}

fn definition(module_id: usize, symbol_id: usize, specifier: &str) -> DefinitionPath {
    DefinitionPath::Definition(Definition {
        module: module_ref(module_id, specifier),
        symbol: path_symbol(module_id, symbol_id),
        kind: DefinitionKind::Definition,
    })
}

fn step(decl: PathDecl, next: Vec<DefinitionPath>) -> DefinitionPath {
    DefinitionPath::Path(PathStep {
        module: module_ref(0, "file:///mod.ts"),
        symbol: path_symbol(0, 0),
        decl,
        parts: vec![],
        next,
    })
}

fn file_ref(resolved: &str) -> FileRef {
    FileRef {
        name: FileDepName::Name("a".to_string()),
        specifier: "a".to_string(),
        resolved: Some(url(resolved)),
    }
}

#[test]
fn ways_lead_to_the_first_definition() {
    let paths = vec![
        step(PathDecl::Target, vec![definition(1, 7, "file:///a.ts")]),
        definition(2, 8, "file:///b.ts"),
    ];
    assert!(supports_paths(&paths));
    match resolve_paths_to_remote_path(&paths) {
        Some(SymbolIdOrRemoteDep::Symbol(id)) => assert_eq!(id, symbol(2, 8)),
        _ => panic!("no symbol"),
    }
    let paths = vec![DefinitionPath::Unresolved(module_ref(0, "file:///mod.ts"))];
    assert!(resolve_paths_to_remote_path(&paths).is_none());
    let paths = vec![step(PathDecl::Definition, vec![])];
    assert!(!supports_paths(&paths));
}

#[test]
fn ways_end_at_modules_on_the_web() {
    let paths = vec![step(
        PathDecl::FileRef(file_ref("https://a.land/mod.ts")),
        vec![definition(1, 7, "https://a.land/mod.ts")],
    )];
    match resolve_paths_to_remote_path(&paths) {
        Some(SymbolIdOrRemoteDep::RemoteDep(dep)) => {
            assert_eq!(dep.specifier_text, "a");
            assert_eq!(dep.resolved_specifier.text, "https://a.land/mod.ts");
            assert_eq!(dep.referrer, ModuleId(0));
            assert!(matches!(&dep.name, FileDepName::Name(name) if name == "a"));
        }
        _ => panic!("no dependency"),
    }
    let paths = vec![step(
        PathDecl::FileRef(file_ref("file:///a.ts")),
        vec![definition(1, 7, "file:///a.ts")],
    )];
    assert!(matches!(
        resolve_paths_to_remote_path(&paths),
        Some(SymbolIdOrRemoteDep::Symbol(id)) if id == symbol(1, 7)
    ));
}

#[test]
fn exports_are_told_by_their_names() {
    let all = |resolved: &str, next: ResolvedExport| {
        ResolvedExport::ReExportAllPath(ReExportAllPath {
            referrer_module: module_ref(0, "file:///mod.ts"),
            specifier: "./x".to_string(),
            resolved_module: url(resolved),
            next: Box::new(next),
        })
    };
    let found = || ResolvedExport::Export(vec![definition(1, 7, "file:///a.ts")]);
    let exports = analyze_exports(vec![
        NamedExport { name: "a".to_string(), export: found() },
        NamedExport { name: "b".to_string(), export: all("file:///a.ts", found()) },
        NamedExport { name: "c".to_string(), export: all("https://a.land/", found()) },
    ]);
    assert_eq!(exports.len(), 3);
    let is_symbol = |name: &str| {
        matches!(
            exports.get(name),
            Some(SymbolIdOrRemoteDep::Symbol(id)) if *id == symbol(1, 7)
        )
    };
    assert!(is_symbol("a"));
    assert!(is_symbol("b"));
    match exports.get("c") {
        Some(SymbolIdOrRemoteDep::RemoteDep(dep)) => {
            assert_eq!(dep.specifier_text, "./x");
            assert_eq!(dep.resolved_specifier.text, "https://a.land/");
            assert!(matches!(&dep.name, FileDepName::Name(name) if name == "c"));
        }
        _ => panic!("no dependency"),
    }
}

#[test]
fn definitions_and_references_come_in_order() {
    let mut remote = path_symbol(0, 1);
    remote.file_dep =
        Some(FileDep { name: FileDepName::All, specifier: "https://a.land/".to_string() });
    let paths = vec![
        step(
            PathDecl::Target,
            vec![definition(1, 7, "file:///a.ts"), definition(1, 8, "file:///a.ts")],
        ),
        DefinitionPath::Path(PathStep {
            module: module_ref(0, "file:///mod.ts"),
            symbol: remote,
            decl: PathDecl::Target,
            parts: vec!["p".to_string()],
            next: vec![definition(3, 9, "https://a.land/")],
        }),
    ];
    let found = go_to_definition_or_remote_ref(&paths);
    assert_eq!(found.len(), 3);
    assert!(matches!(
        &found[0],
        DefinitionOrRemoteRef::Definition(d) if d.symbol.id == symbol(1, 7)
    ));
    assert!(matches!(
        &found[1],
        DefinitionOrRemoteRef::Definition(d) if d.symbol.id == symbol(1, 8)
    ));
    match &found[2] {
        DefinitionOrRemoteRef::RemoteRef(reference) => {
            assert_eq!(reference.specifier.text, "https://a.land/");
            assert_eq!(reference.file_dep.specifier, "https://a.land/");
            assert_eq!(reference.symbol, symbol(3, 9));
            assert_eq!(reference.parts, &vec!["p".to_string()]);
        }
        _ => panic!("no reference"),
    }
}
