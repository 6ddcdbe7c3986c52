use libpack::collections::{IdMap, PairMap, TextMap};
use libpack::comments::{
    comments_fit, fill_leading_comments, fill_trailing_comments, has_internal_jsdoc, Comment,
    CommentFilter, CommentGroup, CommentKind, Comments,
};
use libpack::helpers::{
    adjust_spans, binding_ident, const_var_decl, entity_name, export_x_as_y, ident, ident_expr,
    make, member_x_y, module_has_default_export, object_define_property, placed, spans_fit,
    ts_keyword_type, ts_type_ann,
};
use libpack::syntax::{Flags, Id, IdSet, Kind, Node, Role, SourceRange, Span, VarKind};
use libpack::text::{
    comes_before, contains_text, decimal_text, decimal_text_wide, insert_sorted, starts_with,
    strip_prefix_or_whole, text_before_first, text_before_last, text_between, trim,
};

// texts

#[test]
fn numbers_are_written_in_decimals() {
    assert_eq!(decimal_text(0), "0");
    assert_eq!(decimal_text(1907), "1907");
    assert_eq!(decimal_text_wide(u128::MAX), "340282366920938463463374607431768211455");
}

#[test]
fn texts_are_taken_apart() {
    assert!(starts_with("file:///a", "file://"));
    assert!(!starts_with("file", "file://"));
    assert_eq!(strip_prefix_or_whole("abc", "ab"), "c");
    assert_eq!(strip_prefix_or_whole("abc", "b"), "abc");
    assert!(contains_text("* @internal ", "@internal"));
    assert!(contains_text("a", ""));
    assert!(!contains_text("@intern", "@internal"));
    assert_eq!(text_before_last("a/b/c", '/').as_deref(), Some("a/b"));
    assert_eq!(text_before_last("abc", '/'), None);
    assert_eq!(text_before_first("a:b:c", ':'), "a");
    assert_eq!(text_before_first("abc", ':'), "abc");
    assert_eq!(text_between(&vec!['a', 'b', 'c', 'd'], 1, 3), "bc");
    assert_eq!(trim(" \n\u{a0}a b\t"), "a b");
    assert_eq!(trim("  "), "");
}

#[test]
fn texts_are_sorted_and_taken_once() {
    let mut names = Vec::new();
    for name in ["default", "b", "B", "ab", "a", "b"] {
        insert_sorted(&mut names, name);
    }
    assert_eq!(names, vec!["B", "a", "ab", "b", "default"]);
    assert!(comes_before("a", "ab"));
    assert!(!comes_before("b", "ab"));
    assert!(!comes_before("a", "a"));
}

#[test]
fn white_space_is_what_unicode_says() {
    for c in [
        '\t', '\n', '\u{b}', '\u{c}', '\r', ' ', '\u{85}', '\u{a0}', '\u{1680}', '\u{2000}',
        '\u{200a}', '\u{2028}', '\u{2029}', '\u{202f}', '\u{205f}', '\u{3000}',
    ] {
        assert_eq!(trim(&format!("{}a{}", c, c)), "a");
    }
    for c in ['\u{8}', '\u{e}', '\u{1f}', '\u{180e}', '\u{200b}', '\u{2060}', '\u{feff}'] {
        assert_eq!(trim(&format!("{}a", c)), format!("{}a", c));
    }
}

// collections

#[test]
fn maps_of_texts_keep_the_order_of_their_keys() {
    let mut map: TextMap<u32> = TextMap::new();
    map.insert("b".to_string(), 1);
    map.insert("a".to_string(), 2);
    map.insert("b".to_string(), 3);
    assert_eq!(map.len(), 2);
    assert_eq!(map.key_at(0), "b");
    assert_eq!(*map.value_at(0), 3);
    assert_eq!(map.get("a"), Some(&2));
    assert_eq!(map.get("c"), None);
    assert_eq!(map.place("a"), Some(1));
    *map.value_at_mut(1) = 7;
    assert_eq!(map.pop(), Some(("a".to_string(), 7)));
    assert!(!map.contains_key("a"));
    assert_eq!(map.pop(), Some(("b".to_string(), 3)));
    assert_eq!(map.pop(), None);
}

#[test]
fn maps_of_pairs_keep_the_order_of_their_keys() {
    let mut map: PairMap<&str> = PairMap::new();
    map.insert((2, 0), "x");
    map.insert((0, 2), "y");
    map.insert((2, 0), "z");
    assert_eq!(map.len(), 2);
    assert_eq!(map.key_at(0), (2, 0));
    assert_eq!(map.get((2, 0)), Some(&"z"));
    assert_eq!(map.get((0, 0)), None);
    assert!(map.contains_key((0, 2)));
    *map.value_at_mut(1) = "w";
    assert_eq!(*map.value_at(1), "w");
}

fn id(name: &str, ctxt: u32) -> Id {
    Id { name: name.to_string(), ctxt }
}

#[test]
fn maps_of_identifiers_tell_scopes_apart() {
    let mut map: IdMap<u32> = IdMap::new();
    map.insert(id("a", 1), 10);
    map.insert(id("a", 2), 20);
    map.insert(id("a", 1), 30);
    assert_eq!(map.len(), 2);
    assert_eq!(map.get(&id("a", 1)), Some(&30));
    assert_eq!(map.get(&id("a", 2)), Some(&20));
    assert_eq!(map.get(&id("a", 3)), None);
    assert_eq!(map.key_at(1).ctxt, 2);
}

#[test]
fn sets_of_identifiers_hold_each_once() {
    let mut set = IdSet::new();
    assert!(set.insert(id("a", 1)));
    assert!(!set.insert(id("a", 1)));
    assert!(set.insert(id("a", 0)));
    assert!(set.contains(&id("a", 0)));
    assert!(!set.contains(&id("b", 0)));
    assert_eq!(set.ids.len(), 2);
}

// comments

fn comment(kind: CommentKind, lo: u32, text: &str) -> Comment {
    Comment { kind, span: Span { lo, hi: lo + 2, ctxt: 0 }, text: text.to_string() }
}

fn source() -> Comments {
    Comments {
        leading: vec![
            CommentGroup {
                pos: 10,
                comments: vec![
                    comment(CommentKind::Line, 2, "* not one"),
                    comment(CommentKind::Block, 4, "* Docs. "),
                    comment(CommentKind::Block, 6, " plain "),
                ],
            },
            CommentGroup { pos: 20, comments: vec![comment(CommentKind::Line, 15, " line")] },
        ],
        trailing: vec![CommentGroup {
            pos: 30,
            comments: vec![comment(CommentKind::Line, 31, " behind")],
        }],
    }
}

fn nothing() -> Comments {
    Comments { leading: vec![], trailing: vec![] }
}

fn texts_at(groups: &Vec<CommentGroup>, pos: u32) -> Vec<(u32, String)> {
    groups
        .iter()
        .filter(|group| group.pos == pos)
        .flat_map(|group| group.comments.iter())
        .map(|comment| (comment.span.lo, comment.text.clone()))
        .collect()
}

#[test]
fn comments_move_to_where_the_source_starts() {
    let mut global = nothing();
    fill_leading_comments(100, &source(), &mut global, CommentFilter::All);
    fill_trailing_comments(100, &source(), &mut global);
    assert_eq!(
        texts_at(&global.leading, 110),
        vec![
            (102, "* not one".to_string()),
            (104, "* Docs. ".to_string()),
            (106, " plain ".to_string()),
        ]
    );
    assert_eq!(texts_at(&global.leading, 120), vec![(115, " line".to_string())]);
    assert_eq!(texts_at(&global.trailing, 130), vec![(131, " behind".to_string())]);
    assert!(texts_at(&global.leading, 10).is_empty());
}

#[test]
fn js_docs_and_the_rest_are_all_comments() {
    let mut docs = nothing();
    fill_leading_comments(100, &source(), &mut docs, CommentFilter::OnlyJsDoc);
    assert_eq!(texts_at(&docs.leading, 110), vec![(104, "* Docs. ".to_string())]);
    assert!(texts_at(&docs.leading, 120).is_empty());
    let mut rest = nothing();
    fill_leading_comments(100, &source(), &mut rest, CommentFilter::NoJsDoc);
    assert_eq!(
        texts_at(&rest.leading, 110),
        vec![(102, "* not one".to_string()), (106, " plain ".to_string())]
    );
    assert_eq!(texts_at(&rest.leading, 120), vec![(115, " line".to_string())]);
}

#[test]
fn comments_that_move_too_far_are_told() {
    assert!(comments_fit(&source().leading, 100));
    assert!(!comments_fit(&source().leading, u32::MAX - 5));
}

#[test]
fn internal_docs_are_found() {
    let with = |kind: CommentKind, text: &str| Comments {
        leading: vec![CommentGroup { pos: 5, comments: vec![comment(kind, 1, text)] }],
        trailing: vec![],
    };
    assert!(has_internal_jsdoc(&with(CommentKind::Block, "* @internal "), 5));
    assert!(!has_internal_jsdoc(&with(CommentKind::Block, "* @internal "), 6));
    assert!(!has_internal_jsdoc(&with(CommentKind::Block, " @internal "), 5));
    assert!(!has_internal_jsdoc(&with(CommentKind::Line, "* @internal "), 5));
    assert!(!has_internal_jsdoc(&with(CommentKind::Block, "* Public. "), 5));
}

// syntax

fn spanned(kind: Kind, lo: u32, hi: u32, children: Vec<Node>) -> Node {
    Node {
        kind,
        role: Role::Item,
        span: Span { lo, hi, ctxt: 4 },
        text: String::new(),
        flags: Flags::none(),
        origin: 0,
        children,
    }
}

#[test]
fn every_span_moves() {
    let mut module = spanned(Kind::Module, 1, 30, vec![spanned(Kind::ExprStmt, 5, 9, vec![])]);
    assert!(spans_fit(&module, 100));
    adjust_spans(100, &mut module);
    assert_eq!(module.span, Span { lo: 101, hi: 130, ctxt: 4 });
    assert_eq!(module.children[0].span, Span { lo: 105, hi: 109, ctxt: 4 });
    assert_eq!(module.range(), SourceRange { start: 101, end: 130 });
    assert!(!spans_fit(&module, u32::MAX - 129));
}

#[test]
fn moves_add_up() {
    let mut once = spanned(Kind::Module, 1, 30, vec![]);
    let mut twice = spanned(Kind::Module, 1, 30, vec![]);
    adjust_spans(12, &mut once);
    adjust_spans(5, &mut twice);
    adjust_spans(7, &mut twice);
    assert_eq!(once.span, twice.span);
}

#[test]
fn the_dummy_span_stays() {
    let mut made = ident("a".to_string());
    adjust_spans(10, &mut made);
    assert_eq!(made.span, Span::dummy());
}

#[test]
fn default_exports_are_found() {
    let module = |kind: Kind, children: Vec<Node>| {
        make(Kind::Module, vec![placed(Role::Item, make(kind, children))])
    };
    assert!(module_has_default_export(&module(Kind::ExportDefaultExpr, vec![])));
    assert!(module_has_default_export(&module(Kind::ExportDefaultDecl, vec![])));
    assert!(!module_has_default_export(&module(Kind::ExportDecl, vec![])));
    let renamed = export_x_as_y("a".to_string(), "default".to_string());
    let renamed = make(Kind::Module, vec![placed(Role::Item, renamed)]);
    let named = export_x_as_y("default".to_string(), "a".to_string());
    let named = make(Kind::Module, vec![placed(Role::Item, named)]);
    assert!(!module_has_default_export(&renamed));
    assert!(!module_has_default_export(&named));
}

#[test]
fn builders_make_what_they_say() {
    let decl = const_var_decl("a".to_string(), ident_expr("b".to_string()));
    assert_eq!(decl.kind, Kind::VarDecl);
    assert_eq!(decl.flags.var_kind, VarKind::Const);
    let declarator = decl.get(Role::Declarator).unwrap();
    let name = declarator.get(Role::Name).unwrap().get(Role::Name).unwrap();
    assert!(name.reads("a"));
    assert!(declarator.get(Role::Init).unwrap().reads("b"));

    let member = member_x_y("a".to_string(), "b".to_string());
    assert_eq!(member.kind, Kind::MemberExpr);
    assert_eq!(member.get(Role::Object).unwrap().kind, Kind::IdentExpr);
    assert!(member.get(Role::Property).unwrap().reads("b"));

    let typed = binding_ident(
        ident("a".to_string()),
        Some(ts_type_ann(ts_keyword_type("unknown"))),
    );
    let ann = typed.get(Role::TypeAnn).unwrap();
    assert!(ann.get(Role::Type).unwrap().reads("unknown"));
    assert!(!binding_ident(ident("a".to_string()), None).has(Role::TypeAnn));
    assert_eq!(entity_name("a".to_string()).kind, Kind::EntityName);
}

#[test]
fn properties_are_defined_by_getters() {
    let stmt =
        object_define_property("pack0".to_string(), "a".to_string(), ident_expr("b".to_string()));
    let call = stmt.get(Role::Expr).unwrap();
    let callee = call.get(Role::Callee).unwrap();
    assert!(callee.get(Role::Object).unwrap().reads("Object"));
    assert!(callee.get(Role::Property).unwrap().reads("defineProperty"));
    let args: Vec<&Node> = call.children.iter().filter(|c| c.role == Role::Arg).collect();
    assert_eq!(args.len(), 3);
    assert!(args[0].reads("pack0"));
    assert_eq!(args[1].kind, Kind::Str);
    assert!(args[1].reads("a"));
    let getter = args[2].get(Role::Prop).unwrap();
    assert!(getter.get(Role::Key).unwrap().reads("get"));
    let arrow = getter.get(Role::Value).unwrap();
    assert_eq!(arrow.kind, Kind::ArrowExpr);
    assert!(arrow.get(Role::Body).unwrap().reads("b"));
}

#[test]
fn copies_hold_the_same() {
    let module = spanned(Kind::Module, 1, 30, vec![spanned(Kind::ExprStmt, 5, 9, vec![])]);
    let copy = module.dup_at(Role::Other);
    assert_eq!(copy.role, Role::Other);
    assert_eq!(copy.span, module.span);
    assert_eq!(copy.children.len(), 1);
    assert_eq!(copy.children[0].kind, Kind::ExprStmt);
    assert_eq!(module.to_id().ctxt, 4);
    assert_eq!(module.find(Role::Item), 0);
    assert_eq!(module.find(Role::Body), 1);
}
