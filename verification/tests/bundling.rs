use libpack::comments::{Comment, CommentGroup, CommentKind, Comments};
use libpack::dts::analyzer::{
    analyze_exports, Definition, DefinitionKind, DefinitionPath, FileRef, ModuleRef, NamedExport, PathDecl,
    PathStep, PathSymbol, ResolvedExport, UniqueSymbolId,
};
use libpack::dts::binder::{FileDepName, ModuleId};
use libpack::dts::bundle::DiagnosticKind;
use libpack::dts::bundler::{pack_dts, DtsBundler};
use libpack::dts::checks::can_pack;
use libpack::dts::names::TopLevelSymbols;
use libpack::dts::output::{make_decl_item, ModuleEmitInfos, OutputContainer};
use libpack::dts::root_symbol::{
    DeclNode, IdentPaths, ModuleExport, ModuleInfo, RootSymbol, Symbol, SymbolDecl,
};
use libpack::specifier::ModuleSpecifier;
use libpack::syntax::{Flags, Id, Kind, Node, Role, Span, VarKind};

fn url(text: &str) -> ModuleSpecifier {
    ModuleSpecifier::parse(text).unwrap()
}

// syntax

fn node(kind: Kind, role: Role, text: &str, children: Vec<Node>) -> Node {
    Node {
        kind,
        role,
        span: Span { lo: 0, hi: 0, ctxt: 0 },
        text: text.to_string(),
        flags: Flags::none(),
        origin: 0,
        children,
    }
}

fn with_role(role: Role, mut n: Node) -> Node {
    n.role = role;
    n
}

fn spanned(lo: u32, hi: u32, mut n: Node) -> Node {
    n.span.lo = lo;
    n.span.hi = hi;
    n
}

fn name(role: Role, text: &str) -> Node {
    node(Kind::Ident, role, text, vec![])
}

fn type_ref(text: &str) -> Node {
    let mut entity = node(Kind::EntityName, Role::TypeName, text, vec![]);
    entity.span.ctxt = 1;
    node(Kind::TsTypeRef, Role::Type, "", vec![entity])
}

fn alias(text: &str, of: &str) -> Node {
    node(Kind::TsTypeAliasDecl, Role::Decl, "", vec![name(Role::Name, text), type_ref(of)])
}

fn function(text: &str) -> Node {
    node(
        Kind::FnDecl,
        Role::Decl,
        "",
        vec![
            name(Role::Name, text),
            node(
                Kind::Function,
                Role::Function,
                "",
                vec![node(
                    Kind::Block,
                    Role::Body,
                    "",
                    vec![node(Kind::Return, Role::Stmt, "", vec![])],
                )],
            ),
        ],
    )
}

fn export(decl: Node) -> Node {
    node(Kind::ExportDecl, Role::Item, "", vec![with_role(Role::Decl, decl)])
}

// printing

fn part(n: &Node, role: Role) -> String {
    n.get(role).map(ts).unwrap_or_default()
}

fn parts(n: &Node, role: Role) -> Vec<String> {
    n.children.iter().filter(|c| c.role == role).map(ts).collect()
}

fn ts(n: &Node) -> String {
    let declare = if n.flags.declare { "declare " } else { "" };
    match n.kind {
        Kind::ExportNamed => format!("export {{ {} }};", parts(n, Role::Specifier).join(", ")),
        Kind::ExportNamedSpecifier => match n.has(Role::Exported) {
            true => format!("{} as {}", part(n, Role::Orig), part(n, Role::Exported)),
            false => part(n, Role::Orig),
        },
        Kind::ExportDecl => format!("export {}", part(n, Role::Decl)),
        Kind::TsImportEquals => format!(
            "{}import {} = {};",
            if n.flags.is_export { "export " } else { "" },
            part(n, Role::Name),
            part(n, Role::ModuleRef)
        ),
        Kind::TsQualifiedName => format!("{}.{}", part(n, Role::Left), part(n, Role::Right)),
        Kind::TsModuleDecl => {
            format!("{}module {} {}", declare, part(n, Role::Name), part(n, Role::Body))
        }
        Kind::TsModuleBlock => format!("{{ {} }}", parts(n, Role::Item).join(" ")),
        Kind::TsTypeAliasDecl => {
            format!("{}type {} = {};", declare, part(n, Role::Name), part(n, Role::Type))
        }
        Kind::TsTypeRef => part(n, Role::TypeName),
        Kind::ClassDecl => format!("{}class {};", declare, part(n, Role::Name)),
        Kind::FnDecl => {
            format!("{}function {}{};", declare, part(n, Role::Name), part(n, Role::Function))
        }
        Kind::Function => format!("(){}", part(n, Role::ReturnType)),
        Kind::VarDecl => format!("{}const {};", declare, parts(n, Role::Declarator).join(", ")),
        Kind::VarDeclarator => part(n, Role::Name),
        Kind::BindingIdent => format!("{}{}", part(n, Role::Name), part(n, Role::TypeAnn)),
        Kind::TsTypeAnn => format!(": {}", part(n, Role::Type)),
        Kind::Ident | Kind::EntityName | Kind::TsKeywordType => n.text.clone(),
        _ => panic!("{:?}", n.kind),
    }
}

// symbols

fn id(module_id: usize, symbol_id: usize) -> UniqueSymbolId {
    UniqueSymbolId { module_id, symbol_id }
}

fn to(module_id: usize, symbol_id: usize) -> DefinitionPath {
    DefinitionPath::Definition(Definition {
        module: ModuleRef { module_id: ModuleId(module_id), specifier: url("file:///x.ts") },
        symbol: PathSymbol {
            id: id(module_id, symbol_id),
            file_dep: None,
            dep_module_symbol: None,
        },
        kind: DefinitionKind::Definition,
    })
}

fn decl(text: Option<&str>, tree: Node) -> SymbolDecl {
    SymbolDecl {
        is_definition: true,
        name: text.map(|text| text.to_string()),
        is_function: tree.kind == Kind::FnDecl,
        has_overloads: false,
        node: Some(DeclNode { tree, declarator: None }),
    }
}

fn symbol(decls: Vec<SymbolDecl>, idents: Vec<(&str, DefinitionPath)>) -> Symbol {
    Symbol {
        decls,
        idents: idents
            .into_iter()
            .map(|(text, path)| IdentPaths {
                id: Id { name: text.to_string(), ctxt: 1 },
                paths: vec![path],
            })
            .collect(),
    }
}

fn module_decl() -> Symbol {
    symbol(vec![decl(None, node(Kind::Module, Role::Other, "", vec![]))], vec![])
}

fn module(specifier: &str, symbols: Vec<Symbol>, exports: Vec<(&str, UniqueSymbolId)>) -> ModuleInfo {
    let mut all = vec![module_decl()];
    all.extend(symbols);
    ModuleInfo {
        specifier: url(specifier),
        is_esm: true,
        symbols: all,
        module_symbol: 0,
        exports: exports
            .into_iter()
            .map(|(name, id)| ModuleExport { name: name.to_string(), definition: Some(id) })
            .collect(),
        comments: Comments { leading: vec![], trailing: vec![] },
        source_len: 100,
    }
}

fn exported(name: &str, path: DefinitionPath) -> NamedExport {
    NamedExport { name: name.to_string(), export: ResolvedExport::Export(vec![path]) }
}

fn bundled(modules: Vec<ModuleInfo>, exports: Vec<NamedExport>) -> Vec<String> {
    let root_symbol = RootSymbol { modules };
    assert!(can_pack(&root_symbol, &exports));
    let bundled = pack_dts(&root_symbol, exports).unwrap();
    bundled.module.children.iter().map(ts).collect()
}

#[test]
fn exports_and_what_they_refer_to_are_bundled() {
    let items = bundled(
        vec![
            module(
                "file:///mod.ts",
                vec![
                    symbol(
                        vec![decl(Some("A"), export(alias("A", "B")))],
                        vec![("B", to(1, 1))],
                    ),
                    symbol(vec![decl(Some("C"), alias("C", "string"))], vec![]),
                ],
                vec![],
            ),
            module(
                "file:///b.ts",
                vec![symbol(vec![decl(Some("B"), alias("B", "string"))], vec![])],
                vec![],
            ),
        ],
        vec![exported("A", to(0, 1))],
    );
    assert_eq!(items, vec!["export type A = B;", "type B = string;"]);
}

#[test]
fn names_that_are_taken_get_numbers() {
    let items = bundled(
        vec![
            module(
                "file:///mod.ts",
                vec![symbol(
                    vec![decl(Some("A"), export(alias("A", "B")))],
                    vec![("B", to(1, 1))],
                )],
                vec![],
            ),
            module(
                "file:///b.ts",
                vec![symbol(vec![decl(Some("A"), alias("A", "string"))], vec![])],
                vec![],
            ),
        ],
        vec![exported("A", to(0, 1))],
    );
    assert_eq!(items, vec!["export type A = A1;", "type A1 = string;"]);
}

#[test]
fn exports_under_other_names_come_last() {
    let items = bundled(
        vec![module(
            "file:///mod.ts",
            vec![symbol(vec![decl(Some("A"), alias("A", "string"))], vec![])],
            vec![],
        )],
        vec![exported("A", to(0, 1)), exported("B", to(0, 1))],
    );
    assert_eq!(items, vec!["export type A = string;", "export { A as B };"]);
}

#[test]
fn a_symbol_is_declared_as_its_first_export_says() {
    let items = bundled(
        vec![module(
            "file:///mod.ts",
            vec![symbol(vec![decl(Some("A"), alias("A", "string"))], vec![])],
            vec![],
        )],
        vec![exported("B", to(0, 1)), exported("A", to(0, 1))],
    );
    assert_eq!(items, vec!["type A = string;", "export { A as B, A };"]);
}

#[test]
fn a_bundle_is_taken_out_once() {
    let root_symbol = RootSymbol {
        modules: vec![module(
            "file:///mod.ts",
            vec![symbol(vec![decl(Some("A"), alias("A", "string"))], vec![])],
            vec![],
        )],
    };
    let exports = analyze_exports(vec![exported("B", to(0, 1))]);
    let mut bundler = DtsBundler::new(&root_symbol, &exports);
    let first = bundler.bundle();
    assert_eq!(first.children.len(), 2);
    assert!(bundler.queued_named_exports.is_empty());
    assert!(bundler.pending_symbols.is_empty());
    assert_eq!(bundler.emitted_symbols.len(), 1);
    assert_eq!(bundler.analyzed_symbols.len(), 1);
    assert_eq!(bundler.output.module_emit_infos.len(), 1);
    assert!(bundler.output.module_emit_infos.info_at(0).items.is_empty());
}

#[test]
fn default_exports_get_names() {
    let default = |tree: Node| {
        node(Kind::ExportDefaultDecl, Role::Item, "", vec![with_role(Role::Decl, tree)])
    };
    let class =
        node(Kind::ClassExpr, Role::Decl, "", vec![node(Kind::Class, Role::Class, "", vec![])]);
    let items = bundled(
        vec![module(
            "file:///mod.ts",
            vec![symbol(vec![decl(None, default(class))], vec![])],
            vec![],
        )],
        vec![exported("default", to(0, 1))],
    );
    assert_eq!(items, vec!["declare class NoName;", "export { NoName as default };"]);

    let literal = node(
        Kind::ExportDefaultExpr,
        Role::Item,
        "",
        vec![node(Kind::Num, Role::Expr, "5", vec![])],
    );
    let items = bundled(
        vec![module(
            "file:///mod.ts",
            vec![symbol(vec![decl(None, literal)], vec![])],
            vec![],
        )],
        vec![exported("default", to(0, 1))],
    );
    assert_eq!(items, vec!["declare const NoName: number;", "export { NoName as default };"]);
}

#[test]
fn modules_that_are_referred_to_become_namespaces() {
    let items = bundled(
        vec![
            module(
                "file:///mod.ts",
                vec![symbol(
                    vec![decl(Some("A"), export(alias("A", "ns")))],
                    vec![("ns", to(1, 0))],
                )],
                vec![],
            ),
            module(
                "file:///b.ts",
                vec![symbol(vec![decl(Some("f"), export(function("f")))], vec![])],
                vec![("f", id(1, 1)), ("g", id(1, 1)), ("h", id(2, 1))],
            ),
            module(
                "file:///c.ts",
                vec![symbol(vec![decl(Some("C"), alias("C", "string"))], vec![])],
                vec![],
            ),
        ],
        vec![exported("A", to(0, 1))],
    );
    assert_eq!(
        items,
        vec![
            "export type A = packModule1.packModule1;",
            "declare module packModule1 { function f(): unknown; \
             export import h = packModule2.C; export { f, f as g }; }",
            "declare module packModule2 { type C = string; }",
        ]
    );
}

#[test]
fn each_variable_is_declared_alone() {
    let declarator = |text: &str| {
        let ann = node(
            Kind::TsTypeAnn,
            Role::TypeAnn,
            "",
            vec![node(Kind::TsKeywordType, Role::Type, "string", vec![])],
        );
        node(
            Kind::VarDeclarator,
            Role::Declarator,
            "",
            vec![node(Kind::BindingIdent, Role::Name, "", vec![name(Role::Name, text), ann])],
        )
    };
    let mut vars = node(Kind::VarDecl, Role::Item, "", vec![declarator("a"), declarator("b")]);
    vars.flags.var_kind = VarKind::Const;
    let of = |tree: Node, i: usize| SymbolDecl {
        is_definition: true,
        name: Some("b".to_string()),
        is_function: false,
        has_overloads: false,
        node: Some(DeclNode { tree, declarator: Some(i) }),
    };
    let items = bundled(
        vec![module("file:///mod.ts", vec![symbol(vec![of(vars.dup(), 1)], vec![])], vec![])],
        vec![exported("b", to(0, 1))],
    );
    assert_eq!(items, vec!["export const b: string;"]);
}

#[test]
fn implementations_with_signatures_are_left_out() {
    let mut implementation = decl(Some("f"), export(function("f")));
    implementation.has_overloads = true;
    let mut signature = function("f");
    signature.children[1].children.clear();
    let items = bundled(
        vec![module(
            "file:///mod.ts",
            vec![symbol(
                vec![decl(Some("f"), export(signature)), implementation],
                vec![],
            )],
            vec![],
        )],
        vec![exported("f", to(0, 1))],
    );
    assert_eq!(items, vec!["export function f(): unknown;"]);
}

#[test]
fn what_is_to_be_said_is_noted() {
    let mut f = function("f");
    f.children[1] = spanned(12, 30, f.children[1].dup());
    let namespace = spanned(
        40,
        50,
        node(Kind::TsModuleDecl, Role::Decl, "", vec![name(Role::Name, "N")]),
    );
    let modules = vec![module(
        "file:///mod.ts",
        vec![
            symbol(vec![decl(Some("f"), export(f))], vec![]),
            symbol(vec![decl(Some("N"), export(namespace))], vec![]),
        ],
        vec![],
    )];
    let bundled = pack_dts(
        &RootSymbol { modules },
        vec![exported("f", to(0, 1)), exported("N", to(0, 2))],
    )
    .unwrap();
    let notes: Vec<(DiagnosticKind, u32)> =
        bundled.notes.iter().map(|note| (note.kind, note.pos)).collect();
    assert_eq!(
        notes,
        vec![
            (DiagnosticKind::MissingReturnType, 12),
            (DiagnosticKind::UnsupportedTsNamespace, 40),
        ]
    );
}

#[test]
fn what_cannot_be_dealt_with_is_told() {
    let lost = vec![module(
        "file:///mod.ts",
        vec![symbol(
            vec![decl(Some("A"), node(Kind::TsNamespaceDecl, Role::Item, "", vec![]))],
            vec![],
        )],
        vec![],
    )];
    assert!(pack_dts(&RootSymbol { modules: lost }, vec![exported("A", to(0, 1))]).is_none());
    let web = DefinitionPath::Path(PathStep {
        module: ModuleRef { module_id: ModuleId(0), specifier: url("file:///mod.ts") },
        symbol: PathSymbol { id: id(0, 0), file_dep: None, dep_module_symbol: None },
        decl: PathDecl::FileRef(FileRef {
            name: FileDepName::All,
            specifier: "https://a.land/".to_string(),
            resolved: Some(url("https://a.land/")),
        }),
        parts: vec![],
        next: vec![],
    });
    let remote = vec![module(
        "file:///mod.ts",
        vec![symbol(vec![decl(Some("A"), alias("A", "B"))], vec![("B", web)])],
        vec![],
    )];
    assert!(pack_dts(&RootSymbol { modules: remote }, vec![exported("A", to(0, 1))]).is_none());
}

#[test]
fn comments_and_positions_follow_the_source_files() {
    let docs = |text: &str| Comments {
        leading: vec![CommentGroup {
            pos: 10,
            comments: vec![
                Comment {
                    kind: CommentKind::Block,
                    span: Span { lo: 3, hi: 9, ctxt: 0 },
                    text: text.to_string(),
                },
                Comment {
                    kind: CommentKind::Line,
                    span: Span { lo: 1, hi: 2, ctxt: 0 },
                    text: " line".to_string(),
                },
            ],
        }],
        trailing: vec![],
    };
    let mut first = module(
        "file:///mod.ts",
        vec![symbol(
            vec![decl(Some("A"), spanned(10, 20, alias("A", "B")))],
            vec![("B", to(1, 1))],
        )],
        vec![],
    );
    first.comments = docs("* First. ");
    let mut second = module(
        "file:///b.ts",
        vec![symbol(vec![decl(Some("B"), spanned(10, 20, alias("B", "string")))], vec![])],
        vec![],
    );
    second.comments = docs("* Second. ");
    let bundled =
        pack_dts(&RootSymbol { modules: vec![first, second] }, vec![exported("A", to(0, 1))])
            .unwrap();
    assert_eq!(bundled.start_positions, vec![(0, 1), (1, 102)]);
    assert_eq!(bundled.module.children[0].span, Span { lo: 11, hi: 21, ctxt: 0 });
    assert_eq!(bundled.module.children[1].span, Span { lo: 112, hi: 122, ctxt: 0 });
    let comments: Vec<(u32, &str)> = bundled
        .comments
        .leading
        .iter()
        .flat_map(|group| group.comments.iter().map(|c| (group.pos, c.text.as_str())))
        .collect();
    assert_eq!(comments, vec![(11, "* First. "), (112, "* Second. ")]);
}

#[test]
fn names_are_unique_and_kept() {
    let mut names = TopLevelSymbols::new();
    let named = |text: &str| symbol(vec![decl(Some(text), alias(text, "B"))], vec![]);
    assert_eq!(names.ensure_top_level_name(id(0, 0), &named("a")), "a");
    assert_eq!(names.ensure_top_level_name(id(0, 1), &named("a1")), "a1");
    assert_eq!(names.ensure_top_level_name(id(0, 2), &named("a")), "a2");
    assert_eq!(names.ensure_top_level_name(id(0, 3), &named("a")), "a3");
    assert_eq!(names.ensure_top_level_name(id(0, 0), &named("b")), "a");
    assert_eq!(names.assigned_name(id(0, 2)), "a2");
    let function = symbol(vec![decl(None, function(""))], vec![]);
    assert_eq!(names.ensure_top_level_name(id(1, 0), &function), "noName");
    let other = symbol(vec![decl(None, alias("", "B"))], vec![]);
    assert_eq!(names.ensure_top_level_name(id(1, 1), &other), "NoName");
    assert_eq!(names.ensure_top_level_name(id(7, 0), &module_decl()), "packModule7");
}

#[test]
fn items_are_exported_or_declared() {
    let span = Span { lo: 3, hi: 9, ctxt: 0 };
    let item = make_decl_item(function("f"), "g", span, true);
    assert_eq!(ts(&item), "export function g();");
    assert_eq!(item.span, span);
    let item = make_decl_item(function("f"), "g", span, false);
    assert_eq!(ts(&item), "declare function g();");
    assert_eq!(ts(&make_decl_item(alias("A", "B"), "C", span, false)), "type C = B;");
}

#[test]
fn items_stand_with_their_modules() {
    let modules = vec![module("file:///mod.ts", vec![], vec![])];
    let mut output = OutputContainer::new();
    assert_eq!(output.get_start_pos(&modules, ModuleId(0)), 1);
    assert_eq!(output.get_start_pos(&modules, ModuleId(0)), 1);
    output.add_module_item(&modules, ModuleId(0), spanned(5, 9, alias("A", "B")));
    let info = output.module_emit_infos.get(ModuleId(0)).unwrap();
    assert_eq!(info.items[0].span, Span { lo: 6, hi: 10, ctxt: 0 });
    let mut infos = ModuleEmitInfos::new();
    assert!(infos.get(ModuleId(3)).is_none());
    infos.get_or_create(ModuleId(3)).items.push(alias("A", "B"));
    infos.get_or_create(ModuleId(1));
    assert_eq!(infos.len(), 2);
    assert_eq!(infos.module_at(0), ModuleId(3));
    assert_eq!(infos.info_at(0).items.len(), 1);
}

#[test]
fn graphs_that_lack_symbols_cannot_be_packed() {
    let modules = |target: DefinitionPath| {
        vec![module(
            "file:///mod.ts",
            vec![symbol(vec![decl(Some("A"), alias("A", "B"))], vec![("B", target)])],
            vec![],
        )]
    };
    let root_symbol = RootSymbol { modules: modules(to(0, 0)) };
    assert!(can_pack(&root_symbol, &vec![exported("A", to(0, 1))]));
    assert!(!can_pack(&root_symbol, &vec![exported("A", to(0, 2))]));
    let lost = ModuleRef { module_id: ModuleId(0), specifier: url("file:///mod.ts") };
    assert!(!can_pack(&root_symbol, &vec![exported("A", DefinitionPath::Unresolved(lost))]));
    let root_symbol = RootSymbol { modules: modules(to(1, 0)) };
    assert!(!can_pack(&root_symbol, &vec![exported("A", to(0, 1))]));
}
