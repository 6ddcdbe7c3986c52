use libpack::comments::{Comment, CommentGroup, CommentKind, Comments};
use libpack::dts::binder::ModuleId;
use libpack::dts::namespaces::{
    make_namespace, missing_return_type_message, pack_dts, unsupported_default_expr_message,
    DtsModule, DtsSymbols, ImportedExports, Referrer, TracedReExport,
};
use libpack::dts::transformer::{
    get_return_stmt_from_function, import_equals, is_class_member_overload,
    maybe_infer_type_from_expr, maybe_infer_type_from_lit, qualified_name, to_namespace_name,
    DtsTransformer, ModuleEnv, SourceId,
};
use libpack::specifier::ModuleSpecifier;
use libpack::syntax::{Access, Flags, Id, IdSet, Kind, Node, Role, SourceRange, Span, VarKind};

fn url(text: &str) -> ModuleSpecifier {
    ModuleSpecifier::parse(text).unwrap()
}

// syntax

fn node(kind: Kind, role: Role, text: &str, children: Vec<Node>) -> Node {
    Node {
        kind,
        role,
        span: Span { lo: 0, hi: 0, ctxt: 0 },
        text: text.to_string(),
        flags: Flags::none(),
        origin: 0,
        children,
    }
}

fn with_role(role: Role, mut n: Node) -> Node {
    n.role = role;
    n
}

fn spanned(lo: u32, hi: u32, mut n: Node) -> Node {
    n.span.lo = lo;
    n.span.hi = hi;
    n
}

fn flagged(mut n: Node, change: fn(&mut Flags)) -> Node {
    change(&mut n.flags);
    n
}

fn name(role: Role, text: &str) -> Node {
    node(Kind::Ident, role, text, vec![])
}

fn keyword(text: &str) -> Node {
    node(Kind::TsKeywordType, Role::Type, text, vec![])
}

fn ann(role: Role, text: &str) -> Node {
    node(Kind::TsTypeAnn, role, "", vec![keyword(text)])
}

fn value(kind: Kind, text: &str) -> Node {
    node(kind, Role::Right, text, vec![])
}

fn read(text: &str) -> Node {
    value(Kind::IdentExpr, text)
}

fn cast(kind: Kind, word: &str) -> Node {
    node(kind, Role::Right, "", vec![with_role(Role::Expr, read("e")), keyword(word)])
}

fn binding(text: &str, type_word: Option<&str>) -> Node {
    let mut children = vec![name(Role::Name, text)];
    if let Some(word) = type_word {
        children.push(ann(Role::TypeAnn, word));
    }
    node(Kind::BindingIdent, Role::Pattern, "", children)
}

fn with_default(left: Node, right: Node) -> Node {
    node(
        Kind::AssignPat,
        Role::Pattern,
        "",
        vec![with_role(Role::Left, left), with_role(Role::Right, right)],
    )
}

fn param(pattern: Node) -> Node {
    node(Kind::Param, Role::Param, "", vec![with_role(Role::Pattern, pattern)])
}

fn block(stmts: Vec<Node>) -> Node {
    node(
        Kind::Block,
        Role::Body,
        "",
        stmts.into_iter().map(|stmt| with_role(Role::Stmt, stmt)).collect(),
    )
}

fn returning() -> Node {
    node(Kind::Return, Role::Stmt, "", vec![])
}

fn function(params: Vec<Node>, body: Option<Node>, return_word: Option<&str>) -> Node {
    let mut children = params;
    children.extend(body);
    if let Some(word) = return_word {
        children.push(ann(Role::ReturnType, word));
    }
    node(Kind::Function, Role::Function, "", children)
}

fn fn_decl(text: &str, function: Node) -> Node {
    node(Kind::FnDecl, Role::Item, "", vec![name(Role::Name, text), function])
}

fn method(text: &str, function: Node) -> Node {
    node(Kind::ClassMethod, Role::Member, "", vec![name(Role::Key, text), function])
}

fn prop(text: &str, init: Option<Node>, type_word: Option<&str>) -> Node {
    let mut children = vec![name(Role::Key, text)];
    if let Some(init) = init {
        children.push(with_role(Role::Value, init));
    }
    if let Some(word) = type_word {
        children.push(ann(Role::TypeAnn, word));
    }
    node(Kind::ClassProp, Role::Member, "", children)
}

fn class_decl(text: &str, members: Vec<Node>) -> Node {
    node(
        Kind::ClassDecl,
        Role::Item,
        "",
        vec![name(Role::Name, text), node(Kind::Class, Role::Class, "", members)],
    )
}

fn var_decl(declarators: Vec<Node>) -> Node {
    flagged(node(Kind::VarDecl, Role::Item, "", declarators), |f| {
        f.var_kind = VarKind::Const;
    })
}

fn declarator(pattern: Node, init: Option<Node>) -> Node {
    let mut children = vec![with_role(Role::Name, pattern)];
    if let Some(init) = init {
        children.push(with_role(Role::Init, init));
    }
    node(Kind::VarDeclarator, Role::Declarator, "", children)
}

fn export(decl: Node) -> Node {
    node(Kind::ExportDecl, Role::Item, "", vec![with_role(Role::Decl, decl)])
}

fn export_specifier(orig: &str, exported: Option<&str>) -> Node {
    let mut children = vec![name(Role::Orig, orig)];
    if let Some(exported) = exported {
        children.push(name(Role::Exported, exported));
    }
    node(Kind::ExportNamedSpecifier, Role::Specifier, "", children)
}

fn export_named(specifiers: Vec<Node>, source: Option<&str>) -> Node {
    let mut children = specifiers;
    if let Some(source) = source {
        children.push(node(Kind::Str, Role::Source, source, vec![]));
    }
    node(Kind::ExportNamed, Role::Item, "", children)
}

fn import(specifiers: Vec<Node>, source: &str) -> Node {
    let mut children = specifiers;
    children.push(node(Kind::Str, Role::Source, source, vec![]));
    node(Kind::ImportDecl, Role::Item, "", children)
}

// printing

fn part(n: &Node, role: Role) -> String {
    n.get(role).map(ts).unwrap_or_default()
}

fn parts(n: &Node, role: Role) -> Vec<String> {
    n.children.iter().filter(|c| c.role == role).map(ts).collect()
}

fn words(n: &Node) -> String {
    let mut words = String::new();
    for (is_set, word) in [
        (n.flags.declare, "declare "),
        (n.flags.access == Access::Private, "private "),
        (n.flags.access == Access::Protected, "protected "),
        (n.flags.access == Access::Public, "public "),
        (n.flags.is_static, "static "),
        (n.flags.is_async, "async "),
        (n.flags.readonly, "readonly "),
    ] {
        if is_set {
            words.push_str(word);
        }
    }
    words
}

fn ts(n: &Node) -> String {
    match n.kind {
        Kind::Module => parts(n, Role::Item).join("\n"),
        Kind::ImportDecl => format!(
            "import {} from \"{}\";",
            parts(n, Role::Specifier).join(", "),
            n.get(Role::Source).unwrap().text
        ),
        Kind::ImportNamespace => format!("* as {}", part(n, Role::Local)),
        Kind::ImportNamed => {
            format!("{{ {} as {} }}", part(n, Role::Imported), part(n, Role::Local))
        }
        Kind::ExportNamed => format!("export {{ {} }};", parts(n, Role::Specifier).join(", ")),
        Kind::ExportNamedSpecifier => match n.has(Role::Exported) {
            true => format!("{} as {}", part(n, Role::Orig), part(n, Role::Exported)),
            false => part(n, Role::Orig),
        },
        Kind::ExportDecl => format!("export {}", part(n, Role::Decl)),
        Kind::ExportDefaultExpr => format!("export default {};", part(n, Role::Expr)),
        Kind::TsImportEquals => {
            format!("import {} = {};", part(n, Role::Name), part(n, Role::ModuleRef))
        }
        Kind::TsQualifiedName => format!("{}.{}", part(n, Role::Left), part(n, Role::Right)),
        Kind::TsModuleDecl => {
            format!("{}module {} {}", words(n), part(n, Role::Name), part(n, Role::Body))
        }
        Kind::TsModuleBlock => format!("{{ {} }}", parts(n, Role::Item).join(" ")),
        Kind::ClassDecl => {
            format!("{}class {} {}", words(n), part(n, Role::Name), part(n, Role::Class))
        }
        Kind::Class => format!(
            "{}{{ {} }}",
            parts(n, Role::Decorator).join(""),
            parts(n, Role::Member).join(" ")
        ),
        Kind::Decorator => "@decorator ".to_string(),
        Kind::Constructor => format!(
            "constructor({}){};",
            parts(n, Role::Param).join(", "),
            part(n, Role::Body)
        ),
        Kind::ClassMethod => {
            format!("{}{}{};", words(n), part(n, Role::Key), part(n, Role::Function))
        }
        Kind::ClassProp => {
            let init = match n.has(Role::Value) {
                true => format!(" = {}", part(n, Role::Value)),
                false => String::new(),
            };
            format!("{}{}{}{};", words(n), part(n, Role::Key), part(n, Role::TypeAnn), init)
        }
        Kind::PrivateProp => format!("{};", part(n, Role::Key)),
        Kind::PrivateName => format!("#{}", part(n, Role::Name)),
        Kind::FnDecl => {
            format!("{}function {}{};", words(n), part(n, Role::Name), part(n, Role::Function))
        }
        Kind::Function => format!(
            "{}({}){}{}",
            if n.flags.is_generator { "*" } else { "" },
            parts(n, Role::Param).join(", "),
            part(n, Role::ReturnType),
            part(n, Role::Body)
        ),
        Kind::Param => part(n, Role::Pattern),
        Kind::TsParamProp => format!("{}{}", words(n), part(n, Role::Pattern)),
        Kind::BindingIdent => format!("{}{}", part(n, Role::Name), part(n, Role::TypeAnn)),
        Kind::ObjectPat => format!(
            "{{ {} }}{}{}",
            parts(n, Role::Prop).join(", "),
            if n.flags.optional { "?" } else { "" },
            part(n, Role::TypeAnn)
        ),
        Kind::AssignPatProp => match n.has(Role::Value) {
            true => format!("{} = {}", part(n, Role::Key), part(n, Role::Value)),
            false => part(n, Role::Key),
        },
        Kind::KeyValuePatProp => format!("{}: {}", part(n, Role::Key), part(n, Role::Value)),
        Kind::AssignPat => format!("{} = {}", part(n, Role::Left), part(n, Role::Right)),
        Kind::TsTypeAnn => format!(": {}", part(n, Role::Type)),
        Kind::TsTypeRef => format!("{}{}", part(n, Role::TypeName), part(n, Role::TypeArgs)),
        Kind::TsTypeParamInstantiation => format!("<{}>", parts(n, Role::Param).join(", ")),
        Kind::VarDecl => {
            format!("{}const {};", words(n), parts(n, Role::Declarator).join(", "))
        }
        Kind::VarDeclarator => match n.has(Role::Init) {
            true => format!("{} = {}", part(n, Role::Name), part(n, Role::Init)),
            false => part(n, Role::Name),
        },
        Kind::Ident if n.flags.optional => format!("{}?", n.text),
        Kind::Ident
        | Kind::IdentExpr
        | Kind::EntityName
        | Kind::TsKeywordType
        | Kind::Num
        | Kind::Str => n.text.clone(),
        Kind::Block => "{ .. }".to_string(),
        _ => panic!("{:?}", n.kind),
    }
}

fn no_comments() -> Comments {
    Comments { leading: vec![], trailing: vec![] }
}

fn declared_with(comments: &Comments, n: &Node) -> (String, DtsTransformer) {
    let mut transformer = DtsTransformer::new();
    let env = ModuleEnv { ranges: None, comments, in_namespace: false, sources: &vec![] };
    let tree = transformer.visit(&env, n);
    (ts(&tree), transformer)
}

fn declared(n: Node) -> String {
    let (text, transformer) = declared_with(&no_comments(), &n);
    assert!(!transformer.unsupported);
    text
}

#[test]
fn functions_get_return_types() {
    let with = |body: Option<Node>, change: fn(&mut Flags)| {
        fn_decl("f", flagged(function(vec![], body, None), change))
    };
    assert_eq!(declared(with(Some(block(vec![])), |_| {})), "function f(): void;");
    assert_eq!(declared(with(Some(block(vec![returning()])), |_| {})), "function f(): unknown;");
    assert_eq!(declared(with(None, |_| {})), "function f(): unknown;");
    assert_eq!(
        declared(with(Some(block(vec![])), |f| f.is_async = true)),
        "function f(): Promise<void>;"
    );
    assert_eq!(
        declared(with(Some(block(vec![returning()])), |f| f.is_async = true)),
        "function f(): Promise<unknown>;"
    );
    assert_eq!(
        declared(with(Some(block(vec![])), |f| f.is_generator = true)),
        "function f(): Generator<unknown, void, unknown>;"
    );
    let written = fn_decl("f", function(vec![], Some(block(vec![returning()])), Some("string")));
    assert_eq!(declared(written), "function f(): string;");
}

#[test]
fn missing_return_types_are_noted_where_something_is_returned() {
    let missing = |f: Node| declared_with(&no_comments(), &fn_decl("f", f)).1.missing_types;
    let returns = spanned(7, 20, function(vec![], Some(block(vec![returning()])), None));
    assert_eq!(missing(returns), vec![7]);
    let silent = spanned(7, 20, function(vec![], Some(block(vec![])), None));
    assert!(missing(silent).is_empty());
    let written = spanned(7, 20, function(vec![], Some(block(vec![returning()])), Some("string")));
    assert!(missing(written).is_empty());
    assert_eq!(
        missing_return_type_message(),
        "Missing return type for function with return statement."
    );
    assert!(unsupported_default_expr_message().starts_with("Default expressions that are not"));
}

#[test]
fn returns_are_found_in_statements() {
    let returns = |body: Option<Node>| {
        get_return_stmt_from_function(&function(vec![], body, None)).map(|n| n.span.lo)
    };
    let under = |kind: Kind, role: Role| {
        block(vec![node(kind, Role::Stmt, "", vec![with_role(role, spanned(4, 9, returning()))])])
    };
    assert_eq!(returns(Some(under(Kind::If, Role::Consequent))), Some(4));
    assert_eq!(returns(Some(under(Kind::If, Role::Alternate))), Some(4));
    assert_eq!(returns(Some(under(Kind::If, Role::Test))), None);
    assert_eq!(returns(Some(under(Kind::ForOf, Role::Body))), Some(4));
    assert_eq!(returns(Some(under(Kind::Try, Role::Finalizer))), Some(4));
    assert_eq!(returns(Some(under(Kind::FnDecl, Role::Body))), None);
    let case = node(Kind::SwitchCase, Role::Case, "", vec![spanned(4, 9, returning())]);
    let switch = block(vec![
        node(Kind::Switch, Role::Stmt, "", vec![case]),
        spanned(12, 19, returning()),
    ]);
    assert_eq!(returns(Some(switch)), Some(4));
    assert_eq!(returns(None), None);
}

#[test]
fn functions_that_only_return_behind_else_are_reported() {
    let choice = node(
        Kind::If,
        Role::Stmt,
        "",
        vec![
            with_role(Role::Test, read("c")),
            with_role(Role::Consequent, block(vec![])),
            with_role(Role::Alternate, block(vec![returning()])),
        ],
    );
    let f = fn_decl("f", spanned(7, 60, function(vec![], Some(block(vec![choice])), None)));
    let (text, transformer) = declared_with(&no_comments(), &f);
    assert_eq!(text, "function f(): unknown;");
    assert_eq!(transformer.missing_types, vec![7]);
}

#[test]
fn a_second_visit_changes_nothing() {
    let f = fn_decl(
        "f",
        spanned(
            7,
            60,
            flagged(
                function(
                    vec![param(with_default(binding("a", None), value(Kind::Num, "1")))],
                    Some(block(vec![returning()])),
                    None,
                ),
                |f| f.is_async = true,
            ),
        ),
    );
    let comments = no_comments();
    let env = ModuleEnv { ranges: None, comments: &comments, in_namespace: false, sources: &vec![] };
    let mut transformer = DtsTransformer::new();
    let once = transformer.visit(&env, &f);
    assert_eq!(ts(&once), "function f(a?: number): Promise<unknown>;");
    assert_eq!(transformer.missing_types, vec![7]);
    let twice = transformer.visit(&env, &once);
    assert_eq!(ts(&twice), ts(&once));
    assert_eq!(transformer.missing_types, vec![7]);
}

#[test]
fn parameters_with_defaults_become_optional() {
    let with = |pattern: Node| {
        declared(fn_decl("f", function(vec![param(pattern)], None, Some("void"))))
    };
    assert_eq!(
        with(with_default(binding("a", None), value(Kind::Num, "1"))),
        "function f(a?: number): void;"
    );
    assert_eq!(
        with(with_default(binding("a", Some("string")), value(Kind::Num, "1"))),
        "function f(a?: string): void;"
    );
    assert_eq!(
        with(with_default(binding("a", None), cast(Kind::TsAs, "symbol"))),
        "function f(a?: symbol): void;"
    );
    assert_eq!(with(with_default(binding("a", None), read("b"))), "function f(a?): void;");
    let object = node(
        Kind::ObjectPat,
        Role::Pattern,
        "",
        vec![
            node(
                Kind::KeyValuePatProp,
                Role::Prop,
                "",
                vec![name(Role::Key, "k"), with_role(Role::Value, binding("v", None))],
            ),
            node(
                Kind::AssignPatProp,
                Role::Prop,
                "",
                vec![name(Role::Key, "s"), with_role(Role::Value, value(Kind::Num, "1"))],
            ),
            ann(Role::TypeAnn, "object"),
        ],
    );
    assert_eq!(with(object.dup()), "function f({ k, s }: object): void;");
    assert_eq!(
        with(with_default(object, value(Kind::Num, "1"))),
        "function f({ k, s }?: object): void;"
    );
}

#[test]
fn types_are_told_of_literals_and_casts() {
    let word = |n: Option<Node>| n.map(|n| n.text);
    assert_eq!(word(maybe_infer_type_from_lit(Kind::Str)).as_deref(), Some("string"));
    assert_eq!(word(maybe_infer_type_from_lit(Kind::Bool)).as_deref(), Some("boolean"));
    assert_eq!(word(maybe_infer_type_from_lit(Kind::Null)).as_deref(), Some("null"));
    assert_eq!(word(maybe_infer_type_from_lit(Kind::Num)).as_deref(), Some("number"));
    assert_eq!(word(maybe_infer_type_from_lit(Kind::BigInt)).as_deref(), Some("bigint"));
    assert_eq!(word(maybe_infer_type_from_lit(Kind::Regex)), None);
    let typed = cast(Kind::TsTypeAssertion, "symbol");
    assert_eq!(word(maybe_infer_type_from_expr(&typed)).as_deref(), Some("symbol"));
    assert_eq!(word(maybe_infer_type_from_expr(&read("a"))), None);
}

#[test]
fn class_members_lose_their_code() {
    let class = class_decl(
        "C",
        vec![
            node(Kind::Decorator, Role::Decorator, "", vec![]),
            prop("told", Some(value(Kind::Num, "1")), None),
            prop("typed", Some(read("x")), Some("string")),
            prop("unknown", Some(read("x")), None),
            flagged(prop("hidden", Some(read("x")), Some("string")), |f| {
                f.access = Access::Private;
            }),
            method("m", function(vec![], Some(block(vec![])), None)),
            flagged(method("p", function(vec![], Some(block(vec![])), None)), |f| {
                f.access = Access::Private;
                f.is_static = true;
            }),
            node(Kind::StaticBlock, Role::Member, "", vec![]),
        ],
    );
    assert_eq!(
        declared(class),
        "class C { told: number; typed: string; unknown: unknown; private hidden; \
         m(): void; private static p; }"
    );
}

#[test]
fn private_names_leave_one_marker() {
    let private = |text: &str| {
        node(
            Kind::PrivateProp,
            Role::Member,
            "",
            vec![node(Kind::PrivateName, Role::Key, "", vec![name(Role::Name, text)])],
        )
    };
    let class = class_decl("C", vec![private("a"), prop("b", None, Some("string")), private("c")]);
    assert_eq!(declared(class), "class C { #private; b: string; }");
}

#[test]
fn constructors_declare_properties() {
    let param_prop = |pattern: Node, change: fn(&mut Flags)| {
        flagged(
            node(
                Kind::TsParamProp,
                Role::Param,
                "",
                vec![with_role(Role::Pattern, pattern)],
            ),
            change,
        )
    };
    let constructor = node(
        Kind::Constructor,
        Role::Member,
        "",
        vec![
            name(Role::Key, "constructor"),
            param_prop(binding("a", Some("string")), |f| f.access = Access::Public),
            param_prop(binding("b", None), |f| f.access = Access::Private),
            param_prop(with_default(binding("c", None), value(Kind::Num, "1")), |f| {
                f.readonly = true;
            }),
            param(binding("d", Some("string"))),
            block(vec![]),
        ],
    );
    assert_eq!(
        declared(class_decl("C", vec![prop("x", None, Some("string")), constructor])),
        "class C { a: string; private b; readonly c: number; x: string; \
         constructor(a: string, b, c?: number, d: string); }"
    );
}

#[test]
fn implementations_behind_signatures_are_left_out() {
    let signature = |word: &str| method("m", function(vec![], None, Some(word)));
    let implementation = method("m", function(vec![], Some(block(vec![])), Some("unknown")));
    assert!(is_class_member_overload(&signature("string")));
    assert!(!is_class_member_overload(&implementation));
    let class = class_decl(
        "C",
        vec![
            signature("string"),
            signature("number"),
            implementation,
            method("n", function(vec![], Some(block(vec![])), None)),
        ],
    );
    assert_eq!(declared(class), "class C { m(): string; m(): number; n(): void; }");
}

#[test]
fn internal_members_are_left_out() {
    let comments = Comments {
        leading: vec![CommentGroup {
            pos: 50,
            comments: vec![Comment {
                kind: CommentKind::Block,
                span: Span { lo: 40, hi: 48, ctxt: 0 },
                text: "* @internal ".to_string(),
            }],
        }],
        trailing: vec![],
    };
    let class = class_decl(
        "C",
        vec![
            spanned(50, 60, prop("a", None, Some("string"))),
            spanned(61, 70, prop("b", None, Some("string"))),
        ],
    );
    assert_eq!(declared_with(&comments, &class).0, "class C { b: string; }");
}

#[test]
fn variables_lose_their_values() {
    let decl = var_decl(vec![
        declarator(binding("a", Some("string")), Some(value(Kind::Str, "x"))),
        declarator(binding("b", None), Some(value(Kind::Num, "1"))),
    ]);
    assert_eq!(declared(decl), "const a: string, b;");
}

fn items_of(
    ranges: Option<&Vec<SourceRange>>,
    in_namespace: bool,
    sources: &Vec<SourceId>,
    items: Vec<Node>,
) -> Vec<String> {
    let mut transformer = DtsTransformer::new();
    let comments = no_comments();
    let env = ModuleEnv { ranges, comments: &comments, in_namespace, sources };
    let items = transformer.visit_mut_module_items(&env, &items);
    assert!(!transformer.unsupported);
    items.iter().map(ts).collect()
}

#[test]
fn only_public_items_stay() {
    let ranges = vec![SourceRange { start: 10, end: 20 }, SourceRange { start: 33, end: 39 }];
    let items = vec![
        spanned(10, 20, fn_decl("f", spanned(10, 20, function(vec![], None, Some("void"))))),
        spanned(21, 30, fn_decl("g", spanned(21, 30, function(vec![], None, Some("void"))))),
        spanned(
            31,
            50,
            export(spanned(
                31,
                50,
                var_decl(vec![
                    spanned(33, 39, declarator(binding("a", Some("string")), None)),
                    spanned(41, 49, declarator(binding("b", Some("string")), None)),
                ]),
            )),
        ),
    ];
    assert_eq!(
        items_of(Some(&ranges), false, &vec![], items),
        vec!["function f(): void;", "export const a: string;"]
    );
}

#[test]
fn exports_of_other_modules_become_imports_of_namespaces() {
    let sources = vec![SourceId {
        text: "./a.ts".to_string(),
        module_id: Some(3),
        is_remote: false,
    }];
    let star =
        node(Kind::ExportNamespaceSpecifier, Role::Specifier, "", vec![name(Role::Name, "all")]);
    let items = vec![export_named(
        vec![export_specifier("a", None), export_specifier("default", Some("b")), star],
        Some("./a.ts"),
    )];
    assert_eq!(
        items_of(None, false, &sources, items),
        vec![
            "import __export1 = pack3.a;",
            "export { __export1 as a };",
            "import __export2 = pack3.__default;",
            "export { __export2 as b };",
            "import __export3 = pack3;",
            "export { __export3 as all };",
        ]
    );
}

#[test]
fn namespaces_need_a_declaration() {
    let workaround = "const __packTsUnder5_2_Workaround__: unknown;";
    let alias = || import_equals(
        name(Role::Name, "a"),
        qualified_name("pack1".to_string(), "b".to_string()),
        false,
    );
    let items = vec![
        with_role(Role::Item, alias()),
        export_named(vec![export_specifier("a", None)], None),
    ];
    assert_eq!(
        items_of(None, true, &vec![], items),
        vec!["import a = pack1.b;", "export { a };", workaround]
    );
    let items = vec![with_role(Role::Item, alias())];
    assert_eq!(items_of(None, false, &vec![], items), vec!["import a = pack1.b;"]);
    let items = vec![export(var_decl(vec![declarator(binding("a", Some("string")), None)]))];
    assert_eq!(items_of(None, true, &vec![], items), vec!["export const a: string;"]);
}

#[test]
fn default_expressions_are_exported_by_name_in_namespaces() {
    let default = || {
        vec![node(
            Kind::ExportDefaultExpr,
            Role::Item,
            "",
            vec![with_role(Role::Expr, read("a"))],
        )]
    };
    assert_eq!(
        items_of(None, true, &vec![], default()),
        vec![
            "export { a as __default };",
            "const __packTsUnder5_2_Workaround__: unknown;",
        ]
    );
    assert_eq!(items_of(None, false, &vec![], default()), vec!["export default a;"]);
    assert_eq!(to_namespace_name("default"), "__default");
    assert_eq!(to_namespace_name("a"), "a");
}

#[test]
fn names_of_exports_are_given_once() {
    let mut transformer = DtsTransformer::new();
    let first = transformer.next_re_export_name();
    let second = transformer.next_re_export_name();
    assert_eq!(first.to_string(), "__export1");
    assert_eq!(second.to_string(), "__export2");
    assert_eq!(ts(&second.into_module_item("b".to_string())), "export { __export2 as b };");
}

#[test]
fn namespaces_are_declared() {
    let namespace = make_namespace(
        "pack1".to_string(),
        vec![with_role(Role::Item, export_named(vec![export_specifier("a", None)], None))],
    );
    assert_eq!(ts(&namespace), "declare module pack1 { export { a }; }");
}

// whole graphs

fn symbols(id: usize, start_pos: u32, items: Vec<Node>) -> DtsSymbols {
    DtsSymbols {
        module_id: ModuleId(id),
        ranges: vec![],
        public_ids: IdSet::new(),
        traced_re_exports: vec![],
        referrers: vec![],
        sources: vec![],
        module: node(Kind::Module, Role::Other, "", items),
        comments: no_comments(),
        start_pos,
    }
}

fn packed(modules: &Vec<DtsModule>, roots: &[&str]) -> Vec<String> {
    let roots: Vec<ModuleSpecifier> = roots.iter().map(|root| url(root)).collect();
    for module in modules {
        assert!(module.is_supported(&roots));
    }
    pack_dts(modules, &roots).module.children.iter().map(ts).collect()
}

fn public_id(text: &str) -> Id {
    Id { name: text.to_string(), ctxt: 0 }
}

#[test]
fn files_become_namespaces_and_the_root_stays() {
    let function_at =
        |lo: u32, hi: u32, text: &str| {
            spanned(lo, hi, fn_decl(text, spanned(lo, hi, function(vec![], None, Some("void")))))
        };
    let mut root = symbols(0, 1, vec![
        import(
            vec![
                node(
                    Kind::ImportNamed,
                    Role::Specifier,
                    "",
                    vec![name(Role::Local, "a"), name(Role::Imported, "b")],
                ),
                node(Kind::ImportDefault, Role::Specifier, "", vec![name(Role::Local, "d")]),
                node(Kind::ImportNamed, Role::Specifier, "", vec![name(Role::Local, "unused")]),
            ],
            "./a.ts",
        ),
        function_at(30, 40, "f"),
        function_at(41, 50, "private"),
    ]);
    root.module.children[0] = spanned(1, 20, root.module.children[0].dup());
    root.ranges = vec![SourceRange { start: 30, end: 40 }];
    root.public_ids.insert(public_id("a"));
    root.public_ids.insert(public_id("d"));
    root.sources = vec![SourceId {
        text: "./a.ts".to_string(),
        module_id: Some(1),
        is_remote: false,
    }];
    root.traced_re_exports =
        vec![TracedReExport { name: "e".to_string(), module_id: ModuleId(1) }];
    let mut other = symbols(1, 101, vec![spanned(5, 9, export(function_at(5, 9, "b")))]);
    other.ranges = vec![SourceRange { start: 5, end: 9 }];
    let unused = symbols(2, 201, vec![function_at(1, 2, "g")]);
    let modules = vec![
        DtsModule { specifier: url("file:///mod.ts"), symbols: Some(root) },
        DtsModule { specifier: url("file:///a.ts"), symbols: Some(other) },
        DtsModule { specifier: url("file:///unused.ts"), symbols: Some(unused) },
        DtsModule { specifier: url("file:///data.json"), symbols: None },
    ];
    assert!(modules[0].is_emitted());
    assert!(!modules[2].is_emitted());
    assert!(!modules[3].is_emitted());
    assert_eq!(
        packed(&modules, &["file:///mod.ts"]),
        vec![
            "import a = pack1.b;",
            "import d = pack1.__default;",
            "declare function f(): void;",
            "import __export1 = pack1.e;",
            "export { __export1 as e };",
            "declare module pack1 { export function b(): void; }",
        ]
    );
}

#[test]
fn positions_move_to_where_the_sources_start() {
    let mut other = symbols(
        1,
        101,
        vec![spanned(
            5,
            9,
            fn_decl(
                "b",
                spanned(6, 9, function(vec![], Some(block(vec![returning()])), None)),
            ),
        )],
    );
    other.ranges = vec![SourceRange { start: 5, end: 9 }];
    let modules = vec![DtsModule { specifier: url("file:///a.ts"), symbols: Some(other) }];
    let packed = pack_dts(&modules, &vec![url("file:///a.ts")]);
    assert_eq!(packed.module.children[0].span, Span { lo: 106, hi: 110, ctxt: 0 });
    assert_eq!(packed.missing_types.len(), 1);
    assert_eq!(packed.missing_types[0].pos, 6);
    assert_eq!(packed.missing_types[0].specifier.text, "file:///a.ts");
}

#[test]
fn only_doc_comments_are_kept() {
    let comment = |lo: u32, text: &str| Comment {
        kind: CommentKind::Block,
        span: Span { lo, hi: lo + 1, ctxt: 0 },
        text: text.to_string(),
    };
    let mut other =
        symbols(1, 101, vec![spanned(5, 9, fn_decl("b", function(vec![], None, Some("void"))))]);
    other.ranges = vec![SourceRange { start: 5, end: 9 }];
    other.comments = Comments {
        leading: vec![CommentGroup {
            pos: 5,
            comments: vec![comment(1, "* Docs. "), comment(3, " other ")],
        }],
        trailing: vec![],
    };
    let modules = vec![DtsModule { specifier: url("file:///a.ts"), symbols: Some(other) }];
    let packed = pack_dts(&modules, &vec![url("file:///a.ts")]);
    let kept: Vec<(u32, &str)> = packed
        .comments
        .leading
        .iter()
        .flat_map(|group| group.comments.iter().map(|c| (group.pos, c.text.as_str())))
        .collect();
    assert_eq!(kept, vec![(106, "* Docs. ")]);
}

#[test]
fn modules_on_the_web_are_imported() {
    let web = |referrers: Vec<Referrer>| {
        let mut web = symbols(4, 1, vec![]);
        web.referrers = referrers;
        vec![DtsModule { specifier: url("https://a.land/mod.ts"), symbols: Some(web) }]
    };
    let from = |specifier: &str, imported: ImportedExports| Referrer {
        specifier: Some(url(specifier)),
        imported,
    };
    let named =
        |names: &[&str]| ImportedExports::Named(names.iter().map(|n| n.to_string()).collect());
    let star = "import * as pack4 from \"https://a.land/mod.ts\";";
    let default = "import { default as pack4DefaultImport } from \"https://a.land/mod.ts\";";
    let namespace =
        "declare module pack4Default { export { pack4DefaultImport as __default }; }";
    assert_eq!(packed(&web(vec![from("file:///a.ts", ImportedExports::Star)]), &[]), vec![star]);
    assert_eq!(packed(&web(vec![from("file:///a.ts", named(&["x"]))]), &[]), vec![star]);
    assert_eq!(
        packed(&web(vec![from("file:///a.ts", named(&["default"]))]), &[]),
        vec![default, namespace]
    );
    assert_eq!(
        packed(&web(vec![from("file:///a.ts", ImportedExports::AllWithDefault)]), &[]),
        vec![default, star, namespace]
    );
    assert!(packed(&web(vec![from("https://b.land/", ImportedExports::Star)]), &[]).is_empty());
    assert!(packed(
        &web(vec![Referrer { specifier: None, imported: ImportedExports::Star }]),
        &[]
    )
    .is_empty());
}

#[test]
fn syntax_that_cannot_be_dealt_with_is_told() {
    let mut root = symbols(
        0,
        1,
        vec![import(
            vec![node(
                Kind::ImportNamed,
                Role::Specifier,
                "",
                vec![
                    name(Role::Local, "a"),
                    node(Kind::Str, Role::Imported, "some name", vec![]),
                ],
            )],
            "./a.ts",
        )],
    );
    root.ranges = vec![SourceRange { start: 1, end: 2 }];
    root.sources = vec![SourceId {
        text: "./a.ts".to_string(),
        module_id: Some(1),
        is_remote: false,
    }];
    let module = DtsModule { specifier: url("file:///mod.ts"), symbols: Some(root) };
    assert!(module.is_supported(&vec![]));
    let DtsModule { specifier, symbols } = module;
    let mut root = symbols.unwrap();
    root.public_ids.insert(public_id("a"));
    let module = DtsModule { specifier, symbols: Some(root) };
    assert!(!module.is_supported(&vec![]));
}
