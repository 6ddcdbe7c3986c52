use libpack::comments::{Comment, CommentGroup, CommentKind, Comments};
use libpack::pack_js::analyze::{Dependency, EsmModule};
use libpack::pack_js::data::{ExportName, ModuleData, ModuleDataCollection, ReExport, ReExportName};
use libpack::pack_js::transform::{has_await_keyword, replace_id_to_expr, ReplaceIds, Transformer};
use libpack::pack_js::{
    only_statements, pack, prepare_code, skips_dependencies, Analysis, GraphModule, JsonModule,
    PackOptions, Packed,
};
use libpack::specifier::ModuleSpecifier;
use libpack::syntax::{Flags, Id, Kind, Node, Role, Span, VarKind};

fn url(text: &str) -> ModuleSpecifier {
    ModuleSpecifier::parse(text).unwrap()
}

// syntax

fn node(kind: Kind, role: Role, text: &str, children: Vec<Node>) -> Node {
    Node {
        kind,
        role,
        span: Span { lo: 0, hi: 0, ctxt: 0 },
        text: text.to_string(),
        flags: Flags::none(),
        origin: 0,
        children,
    }
}

fn with_role(role: Role, mut n: Node) -> Node {
    n.role = role;
    n
}

fn in_scope(ctxt: u32, mut n: Node) -> Node {
    n.span.ctxt = ctxt;
    n
}

fn name(role: Role, text: &str) -> Node {
    node(Kind::Ident, role, text, vec![])
}

fn module(items: Vec<Node>) -> Node {
    node(
        Kind::Module,
        Role::Other,
        "",
        items.into_iter().map(|item| with_role(Role::Item, item)).collect(),
    )
}

fn import(specifiers: Vec<Node>, source: &str) -> Node {
    let mut children = specifiers;
    children.push(node(Kind::Str, Role::Source, source, vec![]));
    node(Kind::ImportDecl, Role::Item, "", children)
}

fn import_named(local: &str) -> Node {
    node(Kind::ImportNamed, Role::Specifier, "", vec![name(Role::Local, local)])
}

fn import_named_as(imported: &str, local: &str) -> Node {
    node(
        Kind::ImportNamed,
        Role::Specifier,
        "",
        vec![name(Role::Local, local), name(Role::Imported, imported)],
    )
}

fn import_default(local: &str) -> Node {
    node(Kind::ImportDefault, Role::Specifier, "", vec![name(Role::Local, local)])
}

fn import_star(local: &str) -> Node {
    node(Kind::ImportNamespace, Role::Specifier, "", vec![name(Role::Local, local)])
}

fn export_specifier(orig: &str, exported: Option<&str>) -> Node {
    let mut children = vec![name(Role::Orig, orig)];
    if let Some(exported) = exported {
        children.push(name(Role::Exported, exported));
    }
    node(Kind::ExportNamedSpecifier, Role::Specifier, "", children)
}

fn export_named(specifiers: Vec<Node>, source: Option<&str>) -> Node {
    let mut children = specifiers;
    if let Some(source) = source {
        children.push(node(Kind::Str, Role::Source, source, vec![]));
    }
    node(Kind::ExportNamed, Role::Item, "", children)
}

fn export_star_as(local: &str, source: &str) -> Node {
    export_named(
        vec![node(
            Kind::ExportNamespaceSpecifier,
            Role::Specifier,
            "",
            vec![name(Role::Name, local)],
        )],
        Some(source),
    )
}

fn export_all(source: &str) -> Node {
    node(Kind::ExportAll, Role::Item, "", vec![node(Kind::Str, Role::Source, source, vec![])])
}

fn read(text: &str) -> Node {
    node(Kind::IdentExpr, Role::Expr, text, vec![])
}

fn number(text: &str) -> Node {
    node(Kind::Num, Role::Expr, text, vec![])
}

fn pattern(text: &str) -> Node {
    node(Kind::BindingIdent, Role::Name, "", vec![name(Role::Name, text)])
}

fn constant(pattern: Node, init: Node) -> Node {
    let mut n = node(
        Kind::VarDecl,
        Role::Item,
        "",
        vec![node(
            Kind::VarDeclarator,
            Role::Declarator,
            "",
            vec![with_role(Role::Name, pattern), with_role(Role::Init, init)],
        )],
    );
    n.flags.var_kind = VarKind::Const;
    n
}

fn function(text: &str) -> Node {
    node(
        Kind::FnDecl,
        Role::Item,
        "",
        vec![
            name(Role::Name, text),
            node(
                Kind::Function,
                Role::Function,
                "",
                vec![node(Kind::Block, Role::Body, "", vec![])],
            ),
        ],
    )
}

fn export(decl: Node) -> Node {
    node(Kind::ExportDecl, Role::Item, "", vec![with_role(Role::Decl, decl)])
}

fn export_default(expr: Node) -> Node {
    node(Kind::ExportDefaultExpr, Role::Item, "", vec![with_role(Role::Expr, expr)])
}

fn call(callee: &str, args: Vec<Node>) -> Node {
    let mut children = vec![with_role(Role::Callee, read(callee))];
    children.extend(args.into_iter().map(|arg| with_role(Role::Arg, arg)));
    node(Kind::CallExpr, Role::Expr, "", children)
}

fn wait_for(n: Node) -> Node {
    node(Kind::AwaitExpr, Role::Expr, "", vec![with_role(Role::Arg, n)])
}

fn stmt(expr: Node) -> Node {
    node(Kind::ExprStmt, Role::Item, "", vec![with_role(Role::Expr, expr)])
}

// printing

fn part(n: &Node, role: Role) -> String {
    n.get(role).map(js).unwrap_or_default()
}

fn parts(n: &Node, role: Role) -> Vec<String> {
    n.children.iter().filter(|c| c.role == role).map(js).collect()
}

fn js(n: &Node) -> String {
    match n.kind {
        Kind::Module => parts(n, Role::Item).join("\n"),
        Kind::ImportDecl => format!(
            "import {} from {};",
            parts(n, Role::Specifier).join(", "),
            part(n, Role::Source)
        ),
        Kind::ImportNamespace => format!("* as {}", part(n, Role::Local)),
        Kind::ExportAll => format!("export * from {};", part(n, Role::Source)),
        Kind::TsModuleDecl => format!("namespace {} {}", part(n, Role::Name), part(n, Role::Body)),
        Kind::TsModuleBlock => format!("{{ {} }}", parts(n, Role::Item).join(" ")),
        Kind::ExportNamed => format!("export {{ {} }};", parts(n, Role::Specifier).join(", ")),
        Kind::ExportNamedSpecifier => {
            format!("{} as {}", part(n, Role::Orig), part(n, Role::Exported))
        }
        Kind::ExportDecl => format!("export {}", part(n, Role::Decl)),
        Kind::ExportDefaultExpr => format!("export default {};", part(n, Role::Expr)),
        Kind::VarDecl => format!("const {};", parts(n, Role::Declarator).join(", ")),
        Kind::VarDeclarator => format!("{} = {}", part(n, Role::Name), part(n, Role::Init)),
        Kind::BindingIdent => part(n, Role::Name),
        Kind::Ident | Kind::IdentExpr | Kind::Num => n.text.clone(),
        Kind::Str => format!("{:?}", n.text),
        Kind::FnDecl => format!("function {}{}", part(n, Role::Name), part(n, Role::Function)),
        Kind::FnExpr => {
            let word = match n.get(Role::Function) {
                Some(f) if f.flags.is_async => "async ",
                _ => "",
            };
            format!("{}function {}{}", word, part(n, Role::Name), part(n, Role::Function))
        }
        Kind::Function => format!("() {}", part(n, Role::Body)),
        Kind::Block => format!("{{ {} }}", parts(n, Role::Stmt).join(" ")),
        Kind::ObjectLit => format!("{{ {} }}", parts(n, Role::Prop).join(", ")),
        Kind::KeyValueProp => format!("{}: {}", part(n, Role::Key), part(n, Role::Value)),
        Kind::ShorthandProp => part(n, Role::Name),
        Kind::MemberExpr => format!("{}.{}", part(n, Role::Object), part(n, Role::Property)),
        Kind::CallExpr => {
            format!("{}({})", part(n, Role::Callee), parts(n, Role::Arg).join(", "))
        }
        Kind::ArrowExpr => format!("() => {}", part(n, Role::Body)),
        Kind::AwaitExpr => format!("await {}", part(n, Role::Arg)),
        Kind::ParenExpr => format!("({})", part(n, Role::Expr)),
        Kind::ExprStmt => format!("{};", part(n, Role::Expr)),
        Kind::EmptyStmt => ";".to_string(),
        _ => panic!("{:?}", n.kind),
    }
}

// packing

fn esm(specifier: &str, dependencies: Vec<(&str, &str)>, items: Vec<Node>) -> GraphModule {
    GraphModule::Esm(EsmModule {
        specifier: url(specifier),
        dependencies: dependencies
            .into_iter()
            .map(|(text, to)| Dependency { text: text.to_string(), specifier: url(to) })
            .collect(),
        module: module(items),
    })
}

fn empty_node() -> Node {
    node(Kind::Module, Role::Other, "", vec![])
}

fn pack_all(root: &str, include_remote: bool, modules: Vec<GraphModule>) -> Packed {
    let mut analysis = Analysis::new(url(root), PackOptions { include_remote });
    for module in modules {
        assert!(analysis.can_visit(&module));
        analysis.visit(module);
    }
    let mut transpiled = Vec::new();
    for module in &analysis.modules {
        let code = match analysis.data.get(module.specifier()) {
            Some(data) => match &data.module {
                Some(module) => module.dup(),
                None => empty_node(),
            },
            None => empty_node(),
        };
        transpiled.push(code);
    }
    pack(analysis, &transpiled)
}

fn packed(root: &str, include_remote: bool, modules: Vec<GraphModule>) -> Vec<String> {
    let packed = pack_all(root, include_remote, modules);
    assert_eq!(packed.text, "");
    packed.module.children.iter().map(js).collect()
}

#[test]
fn the_root_stays_and_the_others_become_functions() {
    let items = packed(
        "file:///mod.ts",
        false,
        vec![
            esm(
                "file:///mod.ts",
                vec![("./dir/a.ts", "file:///dir/a.ts")],
                vec![
                    import(vec![import_named("a"), import_named_as("b", "c")], "./dir/a.ts"),
                    export(constant(pattern("d"), call("a", vec![read("c"), read("e")]))),
                ],
            ),
            esm(
                "file:///dir/a.ts",
                vec![],
                vec![export(function("a")), export(constant(pattern("b"), number("1")))],
            ),
        ],
    );
    assert_eq!(
        items,
        vec![
            "const pack0 = { a: undefined, b: undefined };",
            "(function dir_a_ts() { function a() {  } const b = 1; \
             Object.defineProperty(pack0, \"a\", { get: () => a }); \
             Object.defineProperty(pack0, \"b\", { get: () => b }); })();",
            "export const d = pack0.a(pack0.b, e);",
        ]
    );
}

#[test]
fn imports_are_replaced_by_members_of_module_objects() {
    let items = packed(
        "file:///mod.ts",
        false,
        vec![
            esm(
                "file:///mod.ts",
                vec![("./a.ts", "file:///a.ts")],
                vec![
                    import(vec![import_default("first"), import_star("all")], "./a.ts"),
                    stmt(call("first", vec![read("all")])),
                ],
            ),
            esm("file:///a.ts", vec![], vec![export_default(number("5"))]),
        ],
    );
    assert_eq!(
        items,
        vec![
            "const pack0 = { default: undefined };",
            "(function a_ts() { const __pack_default__ = 5; \
             Object.defineProperty(pack0, \"default\", { get: () => __pack_default__ }); })();",
            "pack0.default(pack0);",
        ]
    );
}

#[test]
fn only_the_identifiers_of_the_same_scope_are_replaced() {
    let items = packed(
        "file:///mod.ts",
        false,
        vec![
            esm(
                "file:///mod.ts",
                vec![("./a.ts", "file:///a.ts")],
                vec![
                    import(vec![import_named("a")], "./a.ts"),
                    stmt(call("f", vec![read("a"), in_scope(3, read("a"))])),
                ],
            ),
            esm("file:///a.ts", vec![], vec![export(function("a"))]),
        ],
    );
    assert_eq!(items[2], "f(pack0.a, a);");
}

#[test]
fn shorthand_properties_keep_their_names() {
    let object = node(
        Kind::ObjectLit,
        Role::Expr,
        "",
        vec![
            node(Kind::ShorthandProp, Role::Prop, "", vec![name(Role::Name, "a")]),
            node(Kind::ShorthandProp, Role::Prop, "", vec![name(Role::Name, "b")]),
        ],
    );
    let mut ids = ReplaceIds::new();
    ids.insert(
        Id { name: "a".to_string(), ctxt: 0 },
        vec!["pack1".to_string(), "x".to_string()],
    );
    let transformer = Transformer { replace_ids: &ids, is_root_module: true };
    assert_eq!(js(&transformer.visit(&object)), "{ a: pack1.x, b }");
    assert_eq!(js(&object), "{ a, b }");
}

#[test]
fn type_only_imports_and_exports_leave_nothing_behind() {
    let mut import_type = import(vec![import_named("T")], "./missing.ts");
    import_type.flags.type_only = true;
    let mut export_type = export_named(vec![export_specifier("T", None)], None);
    export_type.flags.type_only = true;
    let items = packed(
        "file:///mod.ts",
        false,
        vec![esm("file:///mod.ts", vec![], vec![import_type, export_type])],
    );
    assert!(items.is_empty());
}

#[test]
fn modules_that_await_become_asynchronous_functions() {
    let items = packed(
        "file:///mod.ts",
        false,
        vec![
            esm(
                "file:///mod.ts",
                vec![("./a.ts", "file:///a.ts")],
                vec![import(vec![], "./a.ts")],
            ),
            esm("file:///a.ts", vec![], vec![stmt(wait_for(call("f", vec![])))]),
        ],
    );
    assert_eq!(items, vec!["await (async function a_ts() { await f(); })();"]);
}

#[test]
fn what_functions_await_does_not_count() {
    let inner = wait_for(call("f", vec![]));
    let mut arrow = node(Kind::ArrowExpr, Role::Expr, "", vec![with_role(Role::Body, inner)]);
    assert!(!has_await_keyword(&arrow));
    arrow.kind = Kind::ParenExpr;
    assert!(has_await_keyword(&arrow));
}

#[test]
fn modules_on_the_web_stay_external() {
    let graph = || {
        vec![
            esm(
                "file:///mod.ts",
                vec![("https://deno.land/x/mod.ts", "https://deno.land/x/mod.ts")],
                vec![
                    import(vec![import_named("x")], "https://deno.land/x/mod.ts"),
                    stmt(call("x", vec![])),
                ],
            ),
            esm("https://deno.land/x/mod.ts", vec![], vec![export(function("x"))]),
        ]
    };
    assert_eq!(
        packed("file:///mod.ts", false, graph()),
        vec!["import * as pack0 from \"https://deno.land/x/mod.ts\";", "pack0.x();"]
    );
    assert_eq!(
        packed("file:///mod.ts", true, graph()),
        vec![
            "import * as pack0 from \"https://deno.land/x/mod.ts\";",
            "(function https___deno_land_x_mod_ts() { function x() {  } \
             Object.defineProperty(pack0, \"x\", { get: () => x }); })();",
            "pack0.x();",
        ]
    );
}

#[test]
fn dependencies_of_external_modules_are_left_alone() {
    let options = PackOptions { include_remote: false };
    assert!(skips_dependencies(&url("https://deno.land/x/mod.ts"), options));
    assert!(!skips_dependencies(&url("file:///mod.ts"), options));
    let options = PackOptions { include_remote: true };
    assert!(!skips_dependencies(&url("https://deno.land/x/mod.ts"), options));
}

#[test]
fn the_root_exports_what_other_modules_export() {
    let items = packed(
        "file:///mod.ts",
        false,
        vec![
            esm(
                "file:///mod.ts",
                vec![("./a.ts", "file:///a.ts"), ("./b.ts", "file:///b.ts")],
                vec![
                    export_named(
                        vec![export_specifier("a", None), export_specifier("b", Some("c"))],
                        Some("./a.ts"),
                    ),
                    export_all("./b.ts"),
                    export_star_as("all", "./b.ts"),
                ],
            ),
            esm("file:///a.ts", vec![], vec![export(function("a")), export(function("b"))]),
            esm("file:///b.ts", vec![], vec![export(function("a")), export(function("y"))]),
        ],
    );
    assert_eq!(
        items[items.len() - 8..],
        [
            "const _packReExport1 = pack1.a;",
            "export { _packReExport1 as a };",
            "const _packReExport2 = pack1.b;",
            "export { _packReExport2 as c };",
            "const _packReExport3 = pack2;",
            "export { _packReExport3 as all };",
            "const _packReExport4 = pack2.y;",
            "export { _packReExport4 as y };",
        ]
    );
}

#[test]
fn modules_pass_on_the_exports_of_others() {
    let items = packed(
        "file:///mod.ts",
        false,
        vec![
            esm(
                "file:///mod.ts",
                vec![("./a.ts", "file:///a.ts")],
                vec![import(vec![import_named("y")], "./a.ts"), stmt(read("y"))],
            ),
            esm(
                "file:///a.ts",
                vec![("./b.ts", "file:///b.ts")],
                vec![
                    import(vec![import_named("x")], "./b.ts"),
                    export_named(vec![export_specifier("x", None)], None),
                    export_all("./b.ts"),
                ],
            ),
            esm(
                "file:///b.ts",
                vec![],
                vec![export(function("x")), export(function("y"))],
            ),
        ],
    );
    assert_eq!(
        items,
        vec![
            "const pack0 = { x: undefined, y: undefined };",
            "const pack2 = { x: undefined, y: undefined };",
            "(function b_ts() { function x() {  } function y() {  } \
             Object.defineProperty(pack2, \"x\", { get: () => x }); \
             Object.defineProperty(pack2, \"y\", { get: () => y }); })();",
            "(function a_ts() { Object.defineProperty(pack0, \"x\", { get: () => pack2.x }); \
             Object.defineProperty(pack0, \"y\", { get: () => pack2.y }); })();",
            "pack0.y;",
        ]
    );
}

#[test]
fn json_modules_are_objects() {
    let packed = pack_all(
        "file:///mod.ts",
        false,
        vec![
            esm(
                "file:///mod.ts",
                vec![("./data.json", "file:///data.json")],
                vec![
                    import(vec![import_default("data")], "./data.json"),
                    export_default(read("data")),
                ],
            ),
            GraphModule::Json(JsonModule {
                specifier: url("file:///data.json"),
                source: "\n  { \"a\": 1 }\t\n".to_string(),
            }),
        ],
    );
    assert_eq!(packed.text, "// data.json\nconst pack0 = {\n  default: { \"a\": 1 }\n};\n");
    let items: Vec<String> = packed.module.children.iter().map(js).collect();
    assert_eq!(items, vec!["export default pack0.default;"]);
}

#[test]
fn every_kind_of_export_is_found() {
    let object = node(
        Kind::ObjectPat,
        Role::Name,
        "",
        vec![
            node(
                Kind::KeyValuePatProp,
                Role::Prop,
                "",
                vec![name(Role::Key, "k"), with_role(Role::Value, pattern("v"))],
            ),
            node(Kind::AssignPatProp, Role::Prop, "", vec![name(Role::Key, "s")]),
            node(Kind::RestPat, Role::Prop, "", vec![with_role(Role::Arg, pattern("rest"))]),
        ],
    );
    let mut class = node(
        Kind::ClassDecl,
        Role::Item,
        "",
        vec![name(Role::Name, "C"), node(Kind::Class, Role::Class, "", vec![])],
    );
    let enumeration = node(Kind::TsEnumDecl, Role::Item, "", vec![name(Role::Name, "E")]);
    let interface = node(Kind::TsInterfaceDecl, Role::Item, "", vec![name(Role::Name, "I")]);
    let mut declared = function("declared");
    declared.flags.declare = true;
    class.flags.is_abstract = true;
    let graph = vec![
        esm("file:///mod.ts", vec![], vec![]),
        esm(
            "file:///a.ts",
            vec![],
            vec![
                export(constant(object, read("o"))),
                export(class),
                export(enumeration),
                export(interface),
                export(declared),
                function("f"),
                export_named(
                    vec![export_specifier("f", None), export_specifier("f", Some("g"))],
                    None,
                ),
                node(
                    Kind::ExportDefaultDecl,
                    Role::Item,
                    "",
                    vec![node(
                        Kind::FnExpr,
                        Role::Decl,
                        "",
                        vec![node(Kind::Function, Role::Function, "", vec![])],
                    )],
                ),
            ],
        ),
    ];
    let mut analysis = Analysis::new(url("file:///mod.ts"), PackOptions { include_remote: false });
    for module in graph {
        assert!(analysis.can_visit(&module));
        analysis.visit(module);
    }
    let data = analysis.data.get(&url("file:///a.ts")).unwrap();
    let exports: Vec<(&str, Option<&str>)> = data
        .exports
        .iter()
        .map(|e| (e.local_name.as_str(), e.export_name.as_deref()))
        .collect();
    assert_eq!(
        exports,
        vec![
            ("v", None),
            ("s", None),
            ("rest", None),
            ("C", None),
            ("E", None),
            ("f", None),
            ("f", Some("g")),
            ("__pack_default__", Some("default")),
        ]
    );
    assert_eq!(
        analysis.data.get_export_names(&url("file:///a.ts")),
        vec!["C", "E", "default", "f", "g", "rest", "s", "v"]
    );
    let module = data.module.as_ref().unwrap();
    assert!(only_statements(module));
}

#[test]
fn modules_that_cannot_be_dealt_with_are_told() {
    let analysis = Analysis::new(url("file:///mod.ts"), PackOptions { include_remote: false });
    let unresolved =
        |specifier: &str| esm(specifier, vec![], vec![import(vec![import_named("a")], "./a.ts")]);
    assert!(!analysis.can_visit(&unresolved("file:///mod.ts")));
    assert!(analysis.can_visit(&unresolved("https://deno.land/mod.ts")));
    let array = node(Kind::ArrayPat, Role::Name, "", vec![]);
    let destructured = export(constant(array, read("o")));
    assert!(!analysis.can_visit(&esm("file:///a.ts", vec![], vec![destructured])));
    assert!(!only_statements(&module(vec![export_all("./a.ts")])));
}

fn data(id: usize, names: &[&str], stars: &[(&str, usize)]) -> ModuleData {
    let mut data = ModuleData {
        id: libpack::pack_js::data::ModuleId(id),
        has_tla: false,
        exports: vec![],
        re_exports: vec![],
        module: None,
    };
    for name in names {
        data.add_export_name(name.to_string());
    }
    for (specifier, id) in stars {
        data.add_re_export(ReExport {
            name: ReExportName::All,
            specifier: url(specifier),
            module_id: libpack::pack_js::data::ModuleId(*id),
        });
    }
    data
}

#[test]
fn export_names_are_found_in_circles_of_modules() {
    let mut modules = ModuleDataCollection::new();
    for specifier in ["file:///a.ts", "file:///b.ts", "file:///c.ts"] {
        modules.mention(&url(specifier));
    }
    *modules.get_mut(&url("file:///a.ts")) = data(0, &["z", "a"], &[("file:///b.ts", 1)]);
    *modules.get_mut(&url("file:///b.ts")) =
        data(1, &["b", "a"], &[("file:///a.ts", 0), ("file:///c.ts", 2)]);
    *modules.get_mut(&url("file:///c.ts")) = data(2, &["c"], &[]);
    assert_eq!(modules.get_export_names(&url("file:///a.ts")), vec!["a", "b", "c", "z"]);
    assert_eq!(modules.get_export_names(&url("file:///c.ts")), vec!["c"]);
    assert!(modules.get_export_names(&url("file:///d.ts")).is_empty());
}

#[test]
fn numbers_of_modules_are_kept() {
    let mut modules = ModuleDataCollection::new();
    let a = modules.mention(&url("file:///a.ts"));
    let b = modules.mention(&url("file:///b.ts"));
    assert_eq!(a.to_code_string(), "pack0");
    assert_eq!(b.to_code_string(), "pack1");
    modules.get_mut(&url("file:///a.ts")).add_export(ExportName {
        local_name: "x".to_string(),
        export_name: Some("y".to_string()),
        in_place: false,
    });
    assert_eq!(modules.mention(&url("file:///a.ts")).to_code_string(), "pack0");
    assert_eq!(modules.get_export_names(&url("file:///a.ts")), vec!["y"]);
}

#[test]
fn paths_become_members() {
    let parts = vec!["pack3".to_string(), "ns".to_string(), "x".to_string()];
    assert_eq!(js(&replace_id_to_expr(&parts)), "pack3.ns.x");
}

fn root_with(items: Vec<Node>) -> Vec<String> {
    packed(
        "file:///mod.ts",
        false,
        vec![
            esm("file:///mod.ts", vec![("./a.ts", "file:///a.ts")], items),
            esm(
                "file:///a.ts",
                vec![],
                vec![export(function("a")), export(function("b"))],
            ),
        ],
    )
}

#[test]
fn the_root_keeps_its_listed_exports() {
    let items = packed(
        "file:///mod.ts",
        false,
        vec![esm(
            "file:///mod.ts",
            vec![],
            vec![
                constant(pattern("a"), number("1")),
                export_named(vec![export_specifier("a", Some("b"))], None),
            ],
        )],
    );
    assert_eq!(items, vec!["const a = 1;", "export { a as b };"]);
}

#[test]
fn the_root_exports_what_it_imports() {
    let items = root_with(vec![
        import(vec![import_named("a"), import_named_as("b", "c")], "./a.ts"),
        constant(pattern("d"), number("1")),
        export_named(
            vec![
                export_specifier("a", None),
                export_specifier("d", Some("e")),
                export_specifier("c", Some("f")),
            ],
            None,
        ),
    ]);
    assert_eq!(
        items[2..],
        [
            "const d = 1;",
            "export { d as e };",
            "const _packReExport1 = pack0.a;",
            "export { _packReExport1 as a };",
            "const _packReExport2 = pack0.b;",
            "export { _packReExport2 as f };",
        ]
    );
}

#[test]
fn what_the_root_declares_comes_before_what_others_export() {
    let items = root_with(vec![export(function("a")), export_all("./a.ts")]);
    assert_eq!(
        items[2..],
        [
            "export function a() {  }",
            "const _packReExport1 = pack1.b;",
            "export { _packReExport1 as b };",
        ]
    );
    let items = root_with(vec![export_default(number("1")), export_all("./a.ts")]);
    assert_eq!(
        items[2..],
        [
            "export default 1;",
            "const _packReExport1 = pack1.a;",
            "export { _packReExport1 as a };",
            "const _packReExport2 = pack1.b;",
            "export { _packReExport2 as b };",
        ]
    );
}

#[test]
fn default_exports_may_await() {
    let items = packed(
        "file:///mod.ts",
        false,
        vec![
            esm(
                "file:///mod.ts",
                vec![("./a.ts", "file:///a.ts")],
                vec![import(vec![import_default("a")], "./a.ts")],
            ),
            esm(
                "file:///a.ts",
                vec![],
                vec![export_default(wait_for(call("f", vec![])))],
            ),
        ],
    );
    assert_eq!(
        items[1],
        "await (async function a_ts() { const __pack_default__ = await f(); \
         Object.defineProperty(pack0, \"default\", { get: () => __pack_default__ }); })();"
    );
}

#[test]
fn names_that_several_modules_export_are_exported_once() {
    let items = packed(
        "file:///mod.ts",
        false,
        vec![
            esm(
                "file:///mod.ts",
                vec![("./a.ts", "file:///a.ts"), ("./b.ts", "file:///b.ts")],
                vec![export_all("./a.ts"), export_all("./b.ts")],
            ),
            esm(
                "file:///a.ts",
                vec![],
                vec![export(function("a")), export(function("c"))],
            ),
            esm(
                "file:///b.ts",
                vec![],
                vec![export(function("a")), export(function("b")), export_default(number("1"))],
            ),
        ],
    );
    assert_eq!(
        items[4..],
        [
            "const _packReExport1 = pack1.a;",
            "export { _packReExport1 as a };",
            "const _packReExport2 = pack1.c;",
            "export { _packReExport2 as c };",
            "const _packReExport3 = pack2.b;",
            "export { _packReExport3 as b };",
        ]
    );
}

#[test]
fn default_exports_are_not_passed_on() {
    let items = packed(
        "file:///mod.ts",
        false,
        vec![
            esm(
                "file:///mod.ts",
                vec![("./a.ts", "file:///a.ts")],
                vec![export_all("./a.ts")],
            ),
            esm(
                "file:///a.ts",
                vec![("./b.ts", "file:///b.ts")],
                vec![export_default(number("1")), export_all("./b.ts")],
            ),
            esm("file:///b.ts", vec![], vec![export_default(number("2")), export(function("b"))]),
        ],
    );
    assert_eq!(
        items[4..],
        ["const _packReExport1 = pack1.b;", "export { _packReExport1 as b };"]
    );
    assert_eq!(items[0], "const pack1 = { b: undefined, default: undefined };");
}

#[test]
fn what_modules_on_the_web_export_is_passed_on() {
    let items = packed(
        "file:///mod.ts",
        false,
        vec![
            esm(
                "file:///mod.ts",
                vec![("./a.ts", "file:///a.ts"), ("https://a.land/", "https://a.land/")],
                vec![export(function("f")), export_all("https://a.land/"), export_all("./a.ts")],
            ),
            esm("https://a.land/", vec![], vec![]),
            esm(
                "file:///a.ts",
                vec![("https://b.land/", "https://b.land/"), ("https://c.land/", "https://c.land/")],
                vec![
                    export(function("a")),
                    export_all("https://b.land/"),
                    import(vec![import_star("c")], "https://c.land/"),
                ],
            ),
            esm("https://b.land/", vec![], vec![]),
            esm("https://c.land/", vec![], vec![]),
        ],
    );
    let stars: Vec<&str> =
        items.iter().map(|item| item.as_str()).filter(|item| item.starts_with("export")).collect();
    assert_eq!(
        stars,
        [
            "export function f() {  }",
            "export { _packReExport1 as a };",
            "export * from \"https://a.land/\";",
            "export * from \"https://b.land/\";",
        ]
    );
}

#[test]
fn members_of_namespaces_stay_exported() {
    let namespace = || {
        node(
            Kind::TsModuleDecl,
            Role::Item,
            "",
            vec![
                name(Role::Name, "N"),
                node(
                    Kind::TsModuleBlock,
                    Role::Body,
                    "",
                    vec![export(function("f")), export(constant(pattern("x"), read("y")))],
                ),
            ],
        )
    };
    let mut ids = ReplaceIds::new();
    ids.insert(read("y").to_id(), vec!["pack1".to_string(), "y".to_string()]);
    for is_root_module in [false, true] {
        let transformer = Transformer { replace_ids: &ids, is_root_module };
        let emitted = transformer.visit(&module(vec![namespace()]));
        assert_eq!(
            js(&emitted),
            "namespace N { export function f() {  } export const x = pack1.y; }"
        );
    }
}

#[test]
fn types_in_lists_are_not_exported() {
    let type_only = |mut n: Node| {
        n.flags.type_only = true;
        n
    };
    let list = || {
        export_named(
            vec![
                type_only(export_specifier("T", Some("U"))),
                export_specifier("a", Some("b")),
            ],
            None,
        )
    };
    let items = packed(
        "file:///mod.ts",
        false,
        vec![esm(
            "file:///mod.ts",
            vec![],
            vec![constant(pattern("a"), number("1")), list()],
        )],
    );
    assert_eq!(items, vec!["const a = 1;", "export { a as b };"]);
    let items = packed(
        "file:///mod.ts",
        false,
        vec![
            esm("file:///mod.ts", vec![("./a.ts", "file:///a.ts")], vec![import(
                vec![import_named("b")],
                "./a.ts",
            )]),
            esm(
                "file:///a.ts",
                vec![],
                vec![constant(pattern("a"), number("1")), list()],
            ),
        ],
    );
    assert_eq!(items[0], "const pack0 = { b: undefined };");
}

#[test]
fn code_and_comments_move_together() {
    let comment = |kind: CommentKind, lo: u32, text: &str| Comment {
        kind,
        span: Span { lo, hi: lo + 5, ctxt: 0 },
        text: text.to_string(),
    };
    let comments = Comments {
        leading: vec![CommentGroup {
            pos: 10,
            comments: vec![
                comment(CommentKind::Block, 1, "* doc "),
                comment(CommentKind::Line, 4, " line"),
            ],
        }],
        trailing: vec![CommentGroup {
            pos: 20,
            comments: vec![comment(CommentKind::Block, 20, "* doc ")],
        }],
    };
    let mut code = function("f");
    code.span = Span { lo: 10, hi: 20, ctxt: 3 };
    let (moved, taken) = prepare_code(code.dup(), &comments, 100).unwrap();
    assert_eq!((moved.span.lo, moved.span.hi, moved.span.ctxt), (110, 120, 3));
    let leading: Vec<(u32, u32, &str)> = taken
        .leading
        .iter()
        .flat_map(|group| {
            group.comments.iter().map(|c| (group.pos, c.span.lo, c.text.as_str()))
        })
        .collect();
    assert_eq!(leading, vec![(110, 104, " line")]);
    assert_eq!(taken.trailing.len(), 1);
    assert_eq!(taken.trailing[0].pos, 120);
    assert_eq!(taken.trailing[0].comments[0].text, "* doc ");
    assert!(prepare_code(code.dup(), &comments, u32::MAX - 19).is_none());
    assert!(prepare_code(code, &comments, u32::MAX - 25).is_some());
}
