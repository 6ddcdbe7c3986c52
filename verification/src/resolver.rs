//! Import maps, which say what the names of modules resolve to.

use import_map::ImportMap;
use serde_json::Value;
use vstd::prelude::*;

use crate::collections::{has_key, key_place, key_place_from, lemma_key_place};
use crate::specifier::{is_file_url, parsed_url, scheme_of, ModuleSpecifier};
use crate::text::{begins_with, characters, same_text, starts_with, text_before_first};

verus! {

/// `serde_json::Value`: a JSON value.
#[verifier::external_type_specification]
#[verifier::external_body]
pub struct ExValue(serde_json::Value);

/// `import_map::ImportMap`: a map from names of modules to URLs, with scopes.
#[verifier::external_type_specification]
#[verifier::external_body]
pub struct ExImportMap(import_map::ImportMap);

/// The members, elements and leaves of a JSON value, as JSON text.
pub uninterp spec fn value_json(value: Value) -> Seq<char>;

/// The base URL, entries and scopes of an import map, in some text form.
pub uninterp spec fn map_contents(map: ImportMap) -> Seq<char>;

/// What reading the tokens of JSON text that may hold comments gives: for each token
/// its text where it is a number or a colon, or a message.
pub uninterp spec fn tokens_read(
    text: Seq<char>,
    comments: bool,
    loose_names: bool,
    trailing_commas: bool,
) -> Result<Seq<Option<Seq<char>>>, Seq<char>>;

/// Why a text is no number that JSON values can hold, if it is none.
pub uninterp spec fn number_error(text: Seq<char>) -> Option<Seq<char>>;

/// The entries of an import map outside its scopes: the names with the URLs to which
/// they lead.
pub uninterp spec fn import_entries(map: Seq<char>) -> Seq<(Seq<char>, Option<Seq<char>>)>;

/// The scopes of an import map, each with its prefix and its entries.
pub uninterp spec fn scope_entries(map: Seq<char>) -> Seq<
    (Seq<char>, Seq<(Seq<char>, Option<Seq<char>>)>),
>;

/// The contents of an import map without entries that has the base URL.
pub uninterp spec fn empty_map(base_url: Seq<char>) -> Seq<char>;

/// What reading JSON text that may hold comments gives: the value, if the text holds
/// one, or a message.
pub uninterp spec fn parsed_jsonc(
    text: Seq<char>,
    comments: bool,
    loose_names: bool,
    trailing_commas: bool,
) -> Result<Option<Seq<char>>, Seq<char>>;

/// What reading a JSON value as an import map with a base URL gives: the contents of
/// the map, or a message.
pub uninterp spec fn parsed_map(base_url: Seq<char>, json: Seq<char>) -> Result<
    Seq<char>,
    Seq<char>,
>;

/// What a name in a module resolves to by an import map: a URL, or a message.
pub uninterp spec fn resolved_by(
    map: Seq<char>,
    specifier: Seq<char>,
    referrer: Seq<char>,
) -> Result<Seq<char>, Seq<char>>;

/// The JSON text of an import map.
pub uninterp spec fn map_json(map: Seq<char>) -> Seq<char>;

/// What a list of tokens stands for.
pub open spec fn tokens_of(s: Seq<Option<String>>) -> Seq<Option<Seq<char>>> {
    Seq::new(
        s.len(),
        |i: int|
            match s[i] {
                Some(number) => Some(number@),
                None => None,
            },
    )
}

/// Whether a token is a number that stands for a value. One with a colon behind it is
/// the name of a property.
pub open spec fn is_value_number(tokens: Seq<Option<Seq<char>>>, i: int) -> bool {
    &&& tokens[i] is Some
    &&& tokens[i] != Some(":"@)
    &&& i + 1 < tokens.len() ==> tokens[i + 1] != Some(":"@)
}

/// The message for the first of `n` tokens that is a value that cannot be held.
pub open spec fn first_number_error(tokens: Seq<Option<Seq<char>>>, n: nat) -> Option<Seq<char>>
    decreases n,
{
    if n == 0 {
        None
    } else {
        match first_number_error(tokens, (n - 1) as nat) {
            Some(message) => Some(message),
            None => if is_value_number(tokens, n - 1) {
                number_error(tokens[n - 1].unwrap())
            } else {
                None
            },
        }
    }
}

/// `jsonc_parser::parse_to_ast`: reads JSON text, in which comments, names without
/// quotes and trailing commas may be allowed. Of the tokens of the text this hands out
/// the texts of those that are numbers or colons.
#[verifier::external_body]
fn read_tokens(text: &str, comments: bool, loose_names: bool, trailing_commas: bool) -> (r:
    Result<Vec<Option<String>>, String>)
    ensures
        tokens_read(text@, comments, loose_names, trailing_commas) == (match r {
            Ok(tokens) => Ok::<Seq<Option<Seq<char>>>, Seq<char>>(tokens_of(tokens@)),
            Err(message) => Err(message@),
        }),
{
    let collect = jsonc_parser::CollectOptions { comments: false, tokens: true };
    let options = jsonc_parser::ParseOptions {
        allow_comments: comments,
        allow_loose_object_property_names: loose_names,
        allow_trailing_commas: trailing_commas,
    };
    let result = jsonc_parser::parse_to_ast(text, &collect, &options);
    let tokens = result.map_err(|err| err.to_string())?.tokens.unwrap_or_default();
    Ok(tokens.into_iter().map(|t| match t.token {
        jsonc_parser::tokens::Token::Number(number) => Some(number.to_string()),
        jsonc_parser::tokens::Token::Colon => Some(":".to_string()),
        _ => None,
    }).collect())
}

/// `serde_json::Number::from_str`: reads a number, or tells why it cannot be held.
#[verifier::external_body]
fn read_number(text: &str) -> (r: Option<String>)
    ensures
        number_error(text@) == (match r {
            Some(message) => Some(message@),
            None => None,
        }),
{
    text.parse::<serde_json::Number>().err().map(|err| err.to_string())
}

/// `jsonc_parser::parse_to_serde_value`: reads JSON text, in which comments, names
/// without quotes and trailing commas may be allowed. It wants every number that is a
/// value to be one that can be held.
#[verifier::external_body]
fn parse_jsonc(
    text: &str,
    comments: bool,
    loose_names: bool,
    trailing_commas: bool,
) -> (r: Result<Option<Value>, String>)
    requires
        tokens_read(text@, comments, loose_names, trailing_commas) matches Ok(tokens)
            ==> first_number_error(tokens, tokens.len()) is None,
    ensures
        parsed_jsonc(text@, comments, loose_names, trailing_commas) == (match r {
            Ok(Some(value)) => Ok::<Option<Seq<char>>, Seq<char>>(Some(value_json(value))),
            Ok(None) => Ok(None),
            Err(message) => Err(message@),
        }),
{
    let options = jsonc_parser::ParseOptions {
        allow_comments: comments,
        allow_loose_object_property_names: loose_names,
        allow_trailing_commas: trailing_commas,
    };
    jsonc_parser::parse_to_serde_value(text, &options).map_err(|err| err.to_string())
}

/// `serde_json::Map::new`, as a value: an object without members.
#[verifier::external_body]
fn empty_object() -> (r: Value)
    ensures
        value_json(r) == "{}"@,
{
    Value::Object(serde_json::Map::new())
}

/// `import_map::parse_from_value`: reads a JSON value as an import map. The base URL
/// is given as text.
#[verifier::external_body]
fn parse_map(base_url: &str, value: Value) -> (r: Result<ImportMap, String>)
    ensures
        parsed_map(base_url@, value_json(value)) == (match r {
            Ok(map) => Ok::<Seq<char>, Seq<char>>(map_contents(map)),
            Err(message) => Err(message@),
        }),
{
    let base_url = deno_ast::ModuleSpecifier::parse(base_url).map_err(|err| err.to_string())?;
    match import_map::parse_from_value(&base_url, value) {
        Ok(result) => Ok(result.import_map),
        Err(err) => Err(err.to_string()),
    }
}

/// Whether a text ends with a slash.
pub open spec fn ends_with_slash(s: Seq<char>) -> bool {
    s.len() > 0 && s.last() == '/'
}

/// The first place from `from` on of a key that stands for all names below it, the name
/// among them, or the number of entries.
pub open spec fn prefix_place(
    entries: Seq<(Seq<char>, Option<Seq<char>>)>,
    name: Seq<char>,
    from: int,
) -> int
    decreases entries.len() - from,
{
    if from >= entries.len() {
        entries.len() as int
    } else if ends_with_slash(entries[from].0) && begins_with(name, entries[from].0) {
        from
    } else {
        prefix_place(entries, name, from + 1)
    }
}

/// Whether a list of entries says what becomes of a name. Keys that stand for all names
/// below them may not count.
pub open spec fn decides(
    entries: Seq<(Seq<char>, Option<Seq<char>>)>,
    name: Seq<char>,
    exact_only: bool,
) -> bool {
    has_key(entries, name) || !exact_only && prefix_place(entries, name, 0) < entries.len()
}

/// Whether a name can be looked for in a list of entries: the name itself is a key, or
/// the key that stands for it with others leads to a URL below which they are.
pub open spec fn entries_safe(
    entries: Seq<(Seq<char>, Option<Seq<char>>)>,
    name: Seq<char>,
    exact_only: bool,
) -> bool {
    let p = prefix_place(entries, name, 0);
    has_key(entries, name) || exact_only || p >= entries.len() || match entries[p].1 {
        Some(url) => ends_with_slash(url),
        None => true,
    }
}

/// Whether a name can be looked for in lists of entries, from one of them on, until one
/// decides.
pub open spec fn lists_safe(
    lists: Seq<Seq<(Seq<char>, Option<Seq<char>>)>>,
    name: Seq<char>,
    exact_only: bool,
    from: int,
) -> bool
    decreases lists.len() - from,
{
    from >= lists.len() || entries_safe(lists[from], name, exact_only) && (decides(
        lists[from],
        name,
        exact_only,
    ) || lists_safe(lists, name, exact_only, from + 1))
}

/// The entries of those of the first `n` scopes below whose prefixes a URL lies.
pub open spec fn scopes_above(
    scopes: Seq<(Seq<char>, Seq<(Seq<char>, Option<Seq<char>>)>)>,
    url: Seq<char>,
    n: nat,
) -> Seq<Seq<(Seq<char>, Option<Seq<char>>)>>
    decreases n,
{
    if n == 0 {
        Seq::empty()
    } else if ends_with_slash(scopes[n - 1].0) && begins_with(url, scopes[n - 1].0) {
        scopes_above(scopes, url, (n - 1) as nat).push(scopes[n - 1].1)
    } else {
        scopes_above(scopes, url, (n - 1) as nat)
    }
}

/// The lists of entries in which a name in a module is looked for, in order: those of
/// its own scope, of the scopes above it, and those outside the scopes.
pub open spec fn lists_for(map: Seq<char>, url: Seq<char>) -> Seq<
    Seq<(Seq<char>, Option<Seq<char>>)>,
> {
    let scopes = scope_entries(map);
    let own = if has_key(scopes, url) {
        seq![scopes[key_place(scopes, url)].1]
    } else {
        Seq::empty()
    };
    (own + scopes_above(scopes, url, scopes.len())).push(import_entries(map))
}

/// Whether a URL is of a kind that has a path.
pub open spec fn is_special_url(url: Seq<char>) -> bool {
    let scheme = scheme_of(url);
    scheme == "ftp"@ || scheme == "file"@ || scheme == "http"@ || scheme == "https"@ || scheme
        == "ws"@ || scheme == "wss"@
}

/// Whether a name in a module can be resolved by an import map. A name that is a URL, or
/// is one relative to the module, is looked for in its normal form.
pub open spec fn can_resolve(map: Seq<char>, specifier: Seq<char>, referrer: Seq<char>) -> bool {
    match parsed_url(referrer) {
        Ok(url) => match resolved_by(empty_map(referrer), specifier, referrer) {
            Ok(name) => lists_safe(lists_for(map, url), name, !is_special_url(name), 0),
            Err(_) => lists_safe(lists_for(map, url), specifier, false, 0),
        },
        Err(_) => true,
    }
}

/// What a list of entries stands for.
pub open spec fn entries_of(s: Seq<(String, Option<String>)>) -> Seq<
    (Seq<char>, Option<Seq<char>>),
> {
    Seq::new(
        s.len(),
        |i: int|
            (
                s[i].0@,
                match s[i].1 {
                    Some(url) => Some(url@),
                    None => None,
                },
            ),
    )
}

/// What a list of scopes stands for.
pub open spec fn scopes_of(s: Seq<(String, Vec<(String, Option<String>)>)>) -> Seq<
    (Seq<char>, Seq<(Seq<char>, Option<Seq<char>>)>),
> {
    Seq::new(s.len(), |i: int| (s[i].0@, entries_of(s[i].1@)))
}

/// What lists of entries stand for.
pub open spec fn lists_of(s: Seq<&Vec<(String, Option<String>)>>) -> Seq<
    Seq<(Seq<char>, Option<Seq<char>>)>,
> {
    Seq::new(s.len(), |i: int| entries_of(s[i]@))
}

/// `import_map::ImportMap::new`: an import map without entries. The base URL is given as
/// text.
#[verifier::external_body]
fn new_map(base_url: &str) -> (r: Result<ImportMap, String>)
    ensures
        match r {
            Ok(map) => {
                &&& parsed_url(base_url@) is Ok
                &&& map_contents(map) == empty_map(base_url@)
                &&& import_entries(map_contents(map)).len() == 0
                &&& scope_entries(map_contents(map)).len() == 0
            },
            Err(message) => parsed_url(base_url@) == Err::<Seq<char>, Seq<char>>(message@),
        },
{
    match deno_ast::ModuleSpecifier::parse(base_url) {
        Ok(url) => Ok(ImportMap::new(url)),
        Err(err) => Err(err.to_string()),
    }
}

/// `import_map::ImportMap::imports`: the entries outside the scopes, each with its
/// name and its URL.
#[verifier::external_body]
fn imports_of(map: &ImportMap) -> (r: Vec<(String, Option<String>)>)
    ensures
        entries_of(r@) == import_entries(map_contents(*map)),
{
    map.imports().entries().map(|e| (e.key.to_string(), e.value.map(|v| v.to_string()))).collect()
}

/// `import_map::ImportMap::scopes`: the scopes, each with its prefix and its entries, and
/// each of those with its name and its URL.
#[verifier::external_body]
fn scopes_in(map: &ImportMap) -> (r: Vec<(String, Vec<(String, Option<String>)>)>)
    ensures
        scopes_of(r@) == scope_entries(map_contents(*map)),
{
    map.scopes().map(|scope| {
        let entries = scope.imports.entries();
        let pairs = entries.map(|e| (e.key.to_string(), e.value.map(|v| v.to_string())));
        (scope.key.to_string(), pairs.collect())
    }).collect()
}

/// `import_map::ImportMap::resolve`: what a name in a module resolves to. Where a key that
/// ends with a slash stands for the name it wants the URL to end with one too. The URL of the module is given
/// as text, and so is the result, whose normal form has two slashes behind the colon
/// where it is that of a file.
#[verifier::external_body]
fn resolve_by(map: &ImportMap, specifier: &str, referrer: &str) -> (r: Result<String, String>)
    requires
        can_resolve(map_contents(*map), specifier@, referrer@),
    ensures
        resolved_by(map_contents(*map), specifier@, referrer@) == (match r {
            Ok(url) => Ok::<Seq<char>, Seq<char>>(url@),
            Err(message) => Err(message@),
        }),
        r matches Ok(url) ==> (is_file_url(url@) ==> begins_with(url@, "file://"@)),
{
    let referrer = deno_ast::ModuleSpecifier::parse(referrer).map_err(|err| err.to_string())?;
    match map.resolve(specifier, &referrer) {
        Ok(url) => Ok(url.to_string()),
        Err(err) => Err(err.to_string()),
    }
}

/// `import_map::ImportMap::to_json`: the map as JSON text.
#[verifier::external_body]
fn write_map(map: &ImportMap) -> (r: String)
    ensures
        r@ == map_json(map_contents(*map)),
{
    map.to_json()
}

/// What loading a file gave.
#[derive(Debug)]
pub enum LoadResponse {
    /// The file is not loaded, because it lies outside.
    External(ModuleSpecifier),
    /// The text of the file, and from where it came.
    Module(String, ModuleSpecifier),
}

/// Why there is no import map, or why a name does not resolve.
#[derive(Debug)]
pub struct ImportMapError {
    pub message: String,
}

/// Resolves names of modules by an import map.
#[derive(Debug)]
pub struct ImportMapResolver {
    map: ImportMap,
}

/// What reading the text of an import map gives: the contents of the map, or a
/// message. A text that holds nothing is read as an object without members.
pub open spec fn read_map(text: Seq<char>, url: Seq<char>) -> Result<Seq<char>, Seq<char>> {
    match tokens_read(text, true, true, true) {
        Err(message) => Err(message),
        Ok(tokens) => match first_number_error(tokens, tokens.len()) {
            Some(message) => Err(message),
            None => match parsed_jsonc(text, true, true, true) {
                Ok(Some(json)) => parsed_map(url, json),
                Ok(None) => parsed_map(url, "{}"@),
                Err(message) => Err(message),
            },
        },
    }
}

/// What loading an import map gives: the contents of the map, or a message.
pub open spec fn loaded_map(url: Seq<char>, response: Option<LoadResponse>) -> Result<
    Seq<char>,
    Seq<char>,
> {
    match response {
        None => Err("Could not find "@ + url),
        Some(LoadResponse::External(specifier)) => Err(
            "Did not expect external import map "@ + specifier@,
        ),
        Some(LoadResponse::Module(content, specifier)) => read_map(content@, specifier@),
    }
}

fn ends_with_a_slash(s: &String) -> (r: bool)
    ensures
        r == ends_with_slash(s@),
{
    let chars: Vec<char> = characters(s.as_str());
    chars.len() > 0 && chars[chars.len() - 1] == '/'
}

fn find_key(entries: &Vec<(String, Option<String>)>, name: &str) -> (r: bool)
    ensures
        r == has_key(entries_of(entries@), name@),
{
    let ghost all = entries_of(entries@);
    let mut i: usize = 0;
    while i < entries.len()
        invariant
            i <= entries@.len(),
            all == entries_of(entries@),
            key_place(all, name@) == key_place_from(all, name@, i as int),
        decreases entries@.len() - i,
    {
        assert(all[i as int].0 == entries@[i as int].0@);
        if same_text(entries[i].0.as_str(), name) {
            return true;
        }
        i = i + 1;
    }
    false
}

fn find_prefix(entries: &Vec<(String, Option<String>)>, name: &str) -> (r: usize)
    ensures
        r == prefix_place(entries_of(entries@), name@, 0),
        r <= entries@.len(),
{
    let ghost all = entries_of(entries@);
    let mut i: usize = 0;
    while i < entries.len()
        invariant
            i <= entries@.len(),
            all == entries_of(entries@),
            prefix_place(all, name@, 0) == prefix_place(all, name@, i as int),
        decreases entries@.len() - i,
    {
        assert(all[i as int].0 == entries@[i as int].0@);
        if ends_with_a_slash(&entries[i].0) && starts_with(name, entries[i].0.as_str()) {
            return i;
        }
        i = i + 1;
    }
    i
}

/// Whether a name can be looked for in lists of entries.
fn check_lists(
    lists: &Vec<&Vec<(String, Option<String>)>>,
    name: &str,
    exact_only: bool,
) -> (r: bool)
    ensures
        r == lists_safe(lists_of(lists@), name@, exact_only, 0),
{
    let ghost all = lists_of(lists@);
    let mut i: usize = 0;
    while i < lists.len()
        invariant
            i <= lists@.len(),
            all == lists_of(lists@),
            lists_safe(all, name@, exact_only, 0) == lists_safe(
                all,
                name@,
                exact_only,
                i as int,
            ),
        decreases lists@.len() - i,
    {
        let entries: &Vec<(String, Option<String>)> = lists[i];
        assert(all[i as int] == entries_of(entries@));
        if find_key(entries, name) {
            return true;
        }
        if !exact_only {
            let p: usize = find_prefix(entries, name);
            if p < entries.len() {
                return match &entries[p].1 {
                    Some(url) => ends_with_a_slash(url),
                    None => true,
                };
            }
        }
        i = i + 1;
    }
    true
}

/// Whether a URL is of a kind that has a path.
fn is_special(url: &str) -> (r: bool)
    ensures
        r == is_special_url(url@),
{
    let scheme: String = text_before_first(url, ':');
    let scheme: &str = scheme.as_str();
    same_text(scheme, "ftp") || same_text(scheme, "file") || same_text(scheme, "http")
        || same_text(scheme, "https") || same_text(scheme, "ws") || same_text(scheme, "wss")
}

/// Whether a name can be looked for in an import map, from a module with the URL.
fn check_name(map: &ImportMap, url: &str, name: &str, exact_only: bool) -> (r: bool)
    ensures
        r == lists_safe(lists_for(map_contents(*map), url@), name@, exact_only, 0),
{
    let imports: Vec<(String, Option<String>)> = imports_of(map);
    let scopes: Vec<(String, Vec<(String, Option<String>)>)> = scopes_in(map);
    let ghost all = scopes_of(scopes@);
    let mut lists: Vec<&Vec<(String, Option<String>)>> = Vec::new();
    let mut i: usize = 0;
    let mut found: bool = false;
    while i < scopes.len() && !found
        invariant
            i <= scopes@.len(),
            all == scopes_of(scopes@),
            !found ==> lists@.len() == 0 && key_place(all, url@) == key_place_from(
                all,
                url@,
                i as int,
            ),
            found ==> has_key(all, url@) && lists_of(lists@) == seq![all[key_place(all, url@)].1],
        decreases scopes@.len() - i,
    {
        let scope: &(String, Vec<(String, Option<String>)>) = &scopes[i];
        assert(all[i as int] == (scope.0@, entries_of(scope.1@)));
        if same_text(scope.0.as_str(), url) {
            lists.push(&scope.1);
            found = true;
            assert(lists_of(lists@) =~= seq![all[i as int].1]);
        }
        i = i + 1;
    }
    let ghost own = lists_of(lists@);
    assert(own =~= if has_key(all, url@) {
        seq![all[key_place(all, url@)].1]
    } else {
        Seq::empty()
    });
    let mut i: usize = 0;
    assert(lists_of(lists@) =~= own + scopes_above(all, url@, 0));
    while i < scopes.len()
        invariant
            i <= scopes@.len(),
            all == scopes_of(scopes@),
            lists_of(lists@) == own + scopes_above(all, url@, i as nat),
        decreases scopes@.len() - i,
    {
        let scope: &(String, Vec<(String, Option<String>)>) = &scopes[i];
        assert(all[i as int] == (scope.0@, entries_of(scope.1@)));
        if ends_with_a_slash(&scope.0) && starts_with(url, scope.0.as_str()) {
            let ghost before = lists@;
            lists.push(&scope.1);
            assert(lists_of(lists@) =~= lists_of(before).push(entries_of(scope.1@)));
        }
        i = i + 1;
        assert(lists_of(lists@) =~= own + scopes_above(all, url@, i as nat));
    }
    let ghost before = lists@;
    lists.push(&imports);
    assert(lists_of(lists@) =~= lists_of(before).push(entries_of(imports@)));
    check_lists(&lists, name, exact_only)
}

/// Whether a name in a module can be resolved by an import map.
fn check_resolve(map: &ImportMap, specifier: &str, referrer: &ModuleSpecifier) -> (r: bool)
    ensures
        r == can_resolve(map_contents(*map), specifier@, referrer@),
{
    let url: ModuleSpecifier = match ModuleSpecifier::parse(referrer.text.as_str()) {
        Ok(url) => url,
        Err(_) => {
            return true;
        },
    };
    match new_map(referrer.text.as_str()) {
        Ok(empty) => {
            proof {
                lemma_empty_is_safe(map_contents(empty), specifier@, referrer@);
            }
            match resolve_by(&empty, specifier, referrer.text.as_str()) {
                Ok(name) => check_name(
                    map,
                    url.text.as_str(),
                    name.as_str(),
                    !is_special(name.as_str()),
                ),
                Err(_) => check_name(map, url.text.as_str(), specifier, false),
            }
        },
        Err(_) => true,
    }
}

/// Every name can be resolved by an import map without entries.
proof fn lemma_empty_is_safe(map: Seq<char>, specifier: Seq<char>, referrer: Seq<char>)
    requires
        import_entries(map).len() == 0,
        scope_entries(map).len() == 0,
    ensures
        can_resolve(map, specifier, referrer),
{
    assert forall|url: Seq<char>, name: Seq<char>, exact_only: bool| #[trigger]
        lists_safe(lists_for(map, url), name, exact_only, 0) by {
        let lists = lists_for(map, url);
        lemma_key_place(scope_entries(map), url);
        assert(lists.len() == 1);
        assert(lists[0] == import_entries(map));
        assert(lists_safe(lists, name, exact_only, 1));
    }
}

fn is_colon(token: &Option<String>) -> (r: bool)
    ensures
        r == (token is Some && token.unwrap()@ == ":"@),
{
    match token {
        Some(text) => same_text(text.as_str(), ":"),
        None => false,
    }
}

/// The message for the first token that is a value that cannot be held.
fn check_numbers(tokens: &Vec<Option<String>>) -> (r: Option<String>)
    ensures
        first_number_error(tokens_of(tokens@), tokens@.len()) == (match r {
            Some(message) => Some(message@),
            None => None,
        }),
{
    let ghost all = tokens_of(tokens@);
    let mut found: Option<String> = None;
    let mut i: usize = 0;
    while i < tokens.len()
        invariant
            i <= tokens@.len(),
            all == tokens_of(tokens@),
            first_number_error(all, i as nat) == (match found {
                Some(message) => Some(message@),
                None => None,
            }),
        decreases tokens@.len() - i,
    {
        if found.is_none() {
            assert(all[i as int] is Some <==> tokens@[i as int] is Some);
            let named: bool = i + 1 < tokens.len() && is_colon(&tokens[i + 1]);
            found = match &tokens[i] {
                Some(number) => if named || same_text(number.as_str(), ":") {
                    None
                } else {
                    read_number(number.as_str())
                },
                None => None,
            };
        }
        i = i + 1;
    }
    found
}

impl ImportMapResolver {
    /// The contents of the import map.
    pub closed spec fn view(&self) -> Seq<char> {
        map_contents(self.map)
    }

    /// Reads the import map from what loading its URL gave.
    pub fn load(import_map_url: &ModuleSpecifier, response: Option<LoadResponse>) -> (r: Result<
        ImportMapResolver,
        ImportMapError,
    >)
        ensures
            loaded_map(import_map_url@, response) == (match r {
                Ok(resolver) => Ok::<Seq<char>, Seq<char>>(resolver@),
                Err(err) => Err(err.message@),
            }),
    {
        match response {
            None => {
                let message: String = "Could not find ".to_owned().concat(
                    import_map_url.text.as_str(),
                );
                Err(ImportMapError { message })
            },
            Some(LoadResponse::External(specifier)) => {
                let message: String = "Did not expect external import map ".to_owned().concat(
                    specifier.text.as_str(),
                );
                Err(ImportMapError { message })
            },
            Some(LoadResponse::Module(content, specifier)) => ImportMapResolver::read(
                content.as_str(),
                &specifier,
            ),
        }
    }

    /// Reads the text of an import map.
    pub fn read(content: &str, specifier: &ModuleSpecifier) -> (r: Result<
        ImportMapResolver,
        ImportMapError,
    >)
        ensures
            read_map(content@, specifier@) == (match r {
                Ok(resolver) => Ok::<Seq<char>, Seq<char>>(resolver@),
                Err(err) => Err(err.message@),
            }),
    {
        let tokens: Vec<Option<String>> = match read_tokens(content, true, true, true) {
            Ok(tokens) => tokens,
            Err(message) => {
                return Err(ImportMapError { message });
            },
        };
        match check_numbers(&tokens) {
            Some(message) => {
                return Err(ImportMapError { message });
            },
            None => {},
        }
        let value: Value = match parse_jsonc(content, true, true, true) {
            Ok(Some(value)) => value,
            Ok(None) => empty_object(),
            Err(message) => {
                return Err(ImportMapError { message });
            },
        };
        match parse_map(specifier.text.as_str(), value) {
            Ok(map) => Ok(ImportMapResolver { map }),
            Err(message) => Err(ImportMapError { message }),
        }
    }

    /// What a name in a module resolves to, unless a key that ends with a slash stands for
    /// it and leads to a URL that does not.
    pub fn try_resolve(&self, specifier: &str, referrer: &ModuleSpecifier) -> (r: Option<
        Result<ModuleSpecifier, ImportMapError>,
    >)
        ensures
            r is Some <==> can_resolve(self@, specifier@, referrer@),
            r matches Some(Ok(url)) ==> resolved_by(self@, specifier@, referrer@) == Ok::<
                Seq<char>,
                Seq<char>,
            >(url@) && url.wf(),
            r matches Some(Err(err)) ==> resolved_by(self@, specifier@, referrer@) == Err::<
                Seq<char>,
                Seq<char>,
            >(err.message@),
    {
        if check_resolve(&self.map, specifier, referrer) {
            Some(self.resolve(specifier, referrer))
        } else {
            None
        }
    }

    /// What a name in a module resolves to.
    pub fn resolve(&self, specifier: &str, referrer: &ModuleSpecifier) -> (r: Result<
        ModuleSpecifier,
        ImportMapError,
    >)
        requires
            can_resolve(self@, specifier@, referrer@),
        ensures
            resolved_by(self@, specifier@, referrer@) == (match r {
                Ok(url) => Ok::<Seq<char>, Seq<char>>(url@),
                Err(err) => Err(err.message@),
            }),
            r matches Ok(url) ==> url.wf(),
    {
        match resolve_by(&self.map, specifier, referrer.text.as_str()) {
            Ok(text) => Ok(ModuleSpecifier { text }),
            Err(message) => Err(ImportMapError { message }),
        }
    }

    /// The import map as JSON text.
    pub fn to_json(&self) -> (r: String)
        ensures
            r@ == map_json(self@),
    {
        write_map(&self.map)
    }
}

}
