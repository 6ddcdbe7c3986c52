use libpack::resolver::{ImportMapResolver, LoadResponse};
use libpack::specifier::{
    displayed_specifier, get_root_dir, is_remote_specifier, parse_module_specifiers, to_identifier,
    ModuleSpecifier,
};

fn url(text: &str) -> ModuleSpecifier {
    ModuleSpecifier::parse(text).unwrap()
}

fn urls(texts: &[&str]) -> Vec<ModuleSpecifier> {
    texts.iter().map(|text| url(text)).collect()
}

#[test]
fn parses_urls_into_their_normal_form() {
    assert_eq!(url("HTTPS://Example.com/a/../b.ts").text, "https://example.com/b.ts");
    assert_eq!(url("file:/mod.ts").text, "file:///mod.ts");
    assert!(ModuleSpecifier::parse("./mod.ts").is_err());
    assert!(url("file:/mod.ts").is_well_formed());
    assert!(url("file:///mod.ts").same(&url("file:/mod.ts")));
    assert!(!url("file:///mod.ts").same(&url("file:///mod.js")));
}

#[test]
fn tells_where_a_module_is() {
    assert!(is_remote_specifier(&url("https://deno.land/x/mod.ts")));
    assert!(is_remote_specifier(&url("http://localhost/mod.ts")));
    assert!(!is_remote_specifier(&url("file:///mod.ts")));
    assert!(!is_remote_specifier(&url("npm:chalk@5")));
    assert!(url("file:///mod.ts").is_file());
    assert!(!url("npm:chalk@5").is_file());
    assert_eq!(url("npm:chalk@5").scheme(), "npm");
}

#[test]
fn parses_all_specifiers_or_tells_the_first_that_is_none() {
    let values = vec!["file:/a.ts".to_string(), "https://b.land".to_string()];
    let parsed = parse_module_specifiers(&values).unwrap();
    let texts: Vec<&str> = parsed.iter().map(|s| s.text.as_str()).collect();
    assert_eq!(texts, vec!["file:///a.ts", "https://b.land/"]);
    let values = vec!["file:/a.ts".to_string(), "a.ts".to_string(), "http://".to_string()];
    let message = parse_module_specifiers(&values).unwrap_err().message;
    assert_eq!(message, "relative URL without a base");
    assert!(parse_module_specifiers(&vec![]).unwrap().is_empty());
}

#[test]
fn the_root_folder_is_the_topmost() {
    let specifiers = urls(&["file:///a/b/c.ts", "file:///a/mod.ts", "file:///a/d/e.ts"]);
    assert_eq!(get_root_dir(&specifiers).as_deref(), Some("file:///a"));
    let specifiers = urls(&["https://a.land/x/y.ts", "file:///a/b/c.ts"]);
    assert_eq!(get_root_dir(&specifiers).as_deref(), Some("file:///a/b"));
    let specifiers = urls(&["file:///a/b.ts", "file:///mod.ts"]);
    assert_eq!(get_root_dir(&specifiers).as_deref(), Some("file:///"));
    assert_eq!(get_root_dir(&urls(&["https://a.land/x/y.ts"])), None);
}

#[test]
fn folders_side_by_side_have_the_first_as_root() {
    let specifiers = urls(&["file:///a/x.ts", "file:///b/y.ts"]);
    assert_eq!(get_root_dir(&specifiers).as_deref(), Some("file:///a"));
}

#[test]
fn shows_files_relative_to_the_root_folder() {
    let root = Some("file:///".to_string());
    assert_eq!(displayed_specifier(&root, &url("file:///dir/mod.ts")), "dir/mod.ts");
    let root = Some("file:///dir".to_string());
    assert_eq!(displayed_specifier(&root, &url("file:///dir/mod.ts")), "/mod.ts");
    assert_eq!(displayed_specifier(&root, &url("file:///mod.ts")), "file:///mod.ts");
    assert_eq!(displayed_specifier(&root, &url("https://a.land/")), "https://a.land/");
    assert_eq!(displayed_specifier(&None, &url("file:///mod.ts")), "file:///mod.ts");
}

#[test]
fn identifiers_hold_letters_and_numbers() {
    assert_eq!(to_identifier("dir/some-module2.test.ts"), "dir_some_module2_test_ts");
    assert_eq!(to_identifier("\u{e9}t\u{e9} 1"), "\u{e9}t\u{e9}_1");
    assert_eq!(to_identifier(""), "");
}

// import maps

fn map_url() -> ModuleSpecifier {
    url("file:///deno.jsonc")
}

fn read(text: &str) -> ImportMapResolver {
    match ImportMapResolver::read(text, &map_url()) {
        Ok(resolver) => resolver,
        Err(err) => panic!("{}", err.message),
    }
}

fn resolve(resolver: &ImportMapResolver, specifier: &str, referrer: &str) -> Result<String, String> {
    match resolver.resolve(specifier, &url(referrer)) {
        Ok(specifier) => Ok(specifier.text),
        Err(err) => Err(err.message),
    }
}

const MAP: &str = r#"{
  // a comment
  "imports": {
    "$std/": "https://deno.land/std@0.191.0/",
    "local": "./local.ts",
  },
  "scopes": { "./vendor/": { "local": "./vendor/local.ts" } }
}"#;

#[test]
fn import_maps_may_hold_comments_and_trailing_commas() {
    let resolver = read(MAP);
    assert_eq!(
        resolve(&resolver, "$std/testing/asserts.ts", "file:///mod.ts"),
        Ok("https://deno.land/std@0.191.0/testing/asserts.ts".to_string())
    );
    assert_eq!(
        resolve(&resolver, "local", "file:///mod.ts"),
        Ok("file:///local.ts".to_string())
    );
    assert_eq!(
        resolve(&resolver, "local", "file:///vendor/mod.ts"),
        Ok("file:///vendor/local.ts".to_string())
    );
    assert_eq!(
        resolve(&resolver, "../a.ts", "file:///dir/mod.ts"),
        Ok("file:///a.ts".to_string())
    );
    assert!(resolve(&resolver, "other", "file:///mod.ts").is_err());
}

#[test]
fn resolved_specifiers_are_well_formed() {
    let resolver = read(MAP);
    let specifier = match resolver.resolve("local", &url("file:///mod.ts")) {
        Ok(specifier) => specifier,
        Err(err) => panic!("{}", err.message),
    };
    assert!(specifier.is_well_formed());
}

#[test]
fn an_import_map_without_text_has_no_entries() {
    let resolver = read("  ");
    assert_eq!(
        resolve(&resolver, "./a.ts", "file:///mod.ts"),
        Ok("file:///a.ts".to_string())
    );
    assert!(resolve(&resolver, "local", "file:///mod.ts").is_err());
}

#[test]
fn import_maps_are_written_as_json() {
    let written = read(MAP).to_json();
    assert!(!written.contains("a comment"));
    assert!(written.contains("\"local\": \"./local.ts\""));
    let again = read(&written);
    assert_eq!(
        resolve(&again, "$std/a.ts", "file:///mod.ts"),
        Ok("https://deno.land/std@0.191.0/a.ts".to_string())
    );
}

fn load_error(response: Option<LoadResponse>) -> String {
    match ImportMapResolver::load(&map_url(), response) {
        Ok(_) => panic!("loaded"),
        Err(err) => err.message,
    }
}

#[test]
fn import_maps_that_cannot_be_loaded_are_told() {
    assert_eq!(load_error(None), "Could not find file:///deno.jsonc");
    assert_eq!(
        load_error(Some(LoadResponse::External(url("npm:a")))),
        "Did not expect external import map npm:a"
    );
    assert!(!load_error(Some(LoadResponse::Module("{".to_string(), map_url()))).is_empty());
    assert!(!load_error(Some(LoadResponse::Module("[]".to_string(), map_url()))).is_empty());
}

#[test]
fn import_maps_are_relative_to_where_they_were_found() {
    let response = LoadResponse::Module(MAP.to_string(), url("file:///dir/deno.json"));
    let resolver = match ImportMapResolver::load(&map_url(), Some(response)) {
        Ok(resolver) => resolver,
        Err(err) => panic!("{}", err.message),
    };
    assert_eq!(
        resolve(&resolver, "local", "file:///mod.ts"),
        Ok("file:///dir/local.ts".to_string())
    );
}

#[test]
fn numbers_that_cannot_be_held_are_told() {
    let message = load_error(Some(LoadResponse::Module(
        "{ \"imports\": {}, \"other\": [1, 1e999] }".to_string(),
        map_url(),
    )));
    assert!(message.contains("number out of range"));
    let resolver = read("{ \"imports\": {}, \"other\": [1, 1e3] }");
    assert!(resolve(&resolver, "local", "file:///mod.ts").is_err());
}

#[test]
fn numbers_may_stand_for_names() {
    let resolver = read("{ 1e999: [2], \"imports\": { \"local\": \"./local.ts\" } }");
    assert_eq!(
        resolve(&resolver, "local", "file:///mod.ts"),
        Ok("file:///local.ts".to_string())
    );
    let message = load_error(Some(LoadResponse::Module(
        "{ 1: 1e999, \"imports\": {} }".to_string(),
        map_url(),
    )));
    assert!(message.contains("number out of range"));
}

#[test]
fn names_that_cannot_be_resolved_are_told() {
    let referrer = url("file:///a/mod.ts");
    let outside = read("{ \"imports\": { \"http://example.com\": \"http://foo.dev/mod.ts\" } }");
    assert_eq!(
        resolve(&outside, "http://example.com/", "file:///mod.ts"),
        Ok("http://foo.dev/mod.ts".to_string())
    );
    assert!(outside.try_resolve("http://example.com/", &referrer).is_some());
    assert!(outside.try_resolve("http://example.com/abc", &referrer).is_none());
    assert!(outside.try_resolve("https://other.dev/abc", &referrer).is_some());
    let inside = read(
        "{ \"scopes\": { \"./a/\": { \"http://example.com\": \"http://foo.dev/mod.ts\" } } }",
    );
    assert!(inside.try_resolve("http://example.com/abc", &referrer).is_none());
    assert!(inside.try_resolve("http://example.com/abc", &url("file:///mod.ts")).is_some());
    let resolver =
        read("{ \"imports\": { \"http://example.com\": \"http://foo.dev/dir/\" } }");
    assert_eq!(
        resolve(&resolver, "http://example.com/abc", "file:///mod.ts"),
        Ok("http://foo.dev/dir/abc".to_string())
    );
}
