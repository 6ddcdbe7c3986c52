//! A declaration file with one namespace for each module but the root.

use vstd::prelude::*;

use super::binder::ModuleId;
use super::transform::{
    block_out, export_name_text, import_equals_tree, namespace_name, pack_name, qualified_tree,
    visitor, Env, State, Visited,
};
use super::transformer::{
    fresh, import_equals, qualified_name, sources_of, to_namespace_name, DtsTransformer, ModuleEnv,
    ReExportName, SourceId,
};
use crate::collections::{has_key, key_place};
use crate::comments::{
    comments_at, comments_can_move, comments_fit, fill_leading_comments, taken, CommentFilter,
    CommentText, Comments,
};
use crate::helpers::{
    adjust_spans, can_move, entity_name, entity_tree, export_as_tree, export_x_as_y, ident, made, make, make_word, moved,
    name_tree, one, placed, spans_fit, two, word,
};
use crate::specifier::{is_file_url, is_remote_specifier, is_remote_url, urls, ModuleSpecifier};
use crate::syntax::{
    at, child, group_trees, has_part, id_of, plain, trees, Flags, IdSet, Kind, Node, Role,
    SourceRange, Tree,
};
use crate::text::{same_text, texts};

verus! {

/// The name of the namespace that holds the default export of a module on the web.
pub open spec fn default_pack_name(id: int) -> Seq<char> {
    pack_name(id) + "Default"@
}

/// The name under which the default export of a module on the web is imported.
pub open spec fn default_import_name(id: int) -> Seq<char> {
    pack_name(id) + "DefaultImport"@
}

/// Which exports of a module another one imports.
#[derive(Debug)]
pub enum ImportedExports {
    AllWithDefault,
    Star,
    Named(Vec<String>),
}

/// Whether the default export is imported.
pub open spec fn imports_default(e: ImportedExports) -> bool {
    match e {
        ImportedExports::AllWithDefault => true,
        ImportedExports::Star => false,
        ImportedExports::Named(names) => texts(names@).contains("default"@),
    }
}

/// Whether something else than the default export is imported.
pub open spec fn imports_others(e: ImportedExports) -> bool {
    match e {
        ImportedExports::AllWithDefault => true,
        ImportedExports::Star => true,
        ImportedExports::Named(names) => exists|i: int|
            0 <= i < names@.len() && (#[trigger] names@[i])@ != "default"@,
    }
}

/// A module that imports from another one, where it is known.
#[derive(Debug)]
pub struct Referrer {
    pub specifier: Option<ModuleSpecifier>,
    pub imported: ImportedExports,
}

/// Whether a file imports from a module.
pub open spec fn refers_locally(r: Referrer) -> bool {
    r.specifier is Some && is_file_url(r.specifier.unwrap()@)
}

/// Whether a file imports the default export.
pub open spec fn default_imported(referrers: Seq<Referrer>) -> bool {
    exists|i: int|
        0 <= i < referrers.len() && refers_locally(#[trigger] referrers[i]) && imports_default(
            referrers[i].imported,
        )
}

/// Whether a file imports something else than the default export.
pub open spec fn others_imported(referrers: Seq<Referrer>) -> bool {
    exists|i: int|
        0 <= i < referrers.len() && refers_locally(#[trigger] referrers[i]) && imports_others(
            referrers[i].imported,
        )
}

/// An export that a module has of another one.
#[derive(Debug)]
pub struct TracedReExport {
    pub name: String,
    pub module_id: ModuleId,
}

/// What is known of the symbols of a module.
#[derive(Debug)]
pub struct DtsSymbols {
    pub module_id: ModuleId,
    /// Where the declarations of the public API are.
    pub ranges: Vec<SourceRange>,
    /// The identifiers that stand for symbols of the public API.
    pub public_ids: IdSet,
    pub traced_re_exports: Vec<TracedReExport>,
    pub referrers: Vec<Referrer>,
    pub sources: Vec<SourceId>,
    pub module: Node,
    pub comments: Comments,
    /// Where the source file starts in the source map.
    pub start_pos: u32,
}

/// A module of the graph, with its symbols if it has any.
#[derive(Debug)]
pub struct DtsModule {
    pub specifier: ModuleSpecifier,
    pub symbols: Option<DtsSymbols>,
}

/// `import { default as <name> } from "<url>";`
pub open spec fn default_import_tree(name: Seq<char>, url: Seq<char>) -> Tree {
    made(
        Kind::ImportDecl,
        seq![
            at(
                Role::Specifier,
                made(
                    Kind::ImportNamed,
                    seq![
                        at(Role::Local, name_tree(name)),
                        at(Role::Imported, name_tree("default"@)),
                    ],
                ),
            ),
            at(Role::Source, word(Kind::Str, url)),
        ],
    )
}

/// `import * as <name> from "<url>";`
pub open spec fn star_import_tree(name: Seq<char>, url: Seq<char>) -> Tree {
    made(
        Kind::ImportDecl,
        seq![
            at(
                Role::Specifier,
                made(Kind::ImportNamespace, seq![at(Role::Local, name_tree(name))]),
            ),
            at(Role::Source, word(Kind::Str, url)),
        ],
    )
}

/// `declare module <name> { .. }`
pub open spec fn namespace_tree(name: Seq<char>, items: Seq<Tree>) -> Tree {
    Tree {
        flags: Flags { declare: true, ..plain() },
        ..made(
            Kind::TsModuleDecl,
            seq![
                at(Role::Name, name_tree(name)),
                at(Role::Body, made(Kind::TsModuleBlock, items)),
            ],
        )
    }
}

/// The imports that stand for a module on the web.
pub open spec fn remote_imports(url: Seq<char>, symbols: DtsSymbols) -> Seq<Tree> {
    let id = symbols.module_id.0 as int;
    let of_default = if default_imported(symbols.referrers@) {
        seq![at(Role::Item, default_import_tree(default_import_name(id), url))]
    } else {
        Seq::empty()
    };
    if others_imported(symbols.referrers@) {
        of_default.push(at(Role::Item, star_import_tree(pack_name(id), url)))
    } else {
        of_default
    }
}

/// The namespace for the default export of a module on the web. What is imported
/// by name is no namespace, so it cannot be imported on by `import a = ..`.
pub open spec fn default_namespace(symbols: DtsSymbols) -> Seq<Tree> {
    let id = symbols.module_id.0 as int;
    if default_imported(symbols.referrers@) {
        seq![
            at(
                Role::Item,
                namespace_tree(
                    default_pack_name(id),
                    seq![
                        at(
                            Role::Item,
                            export_as_tree(default_import_name(id), "__default"@),
                        ),
                    ],
                ),
            ),
        ]
    } else {
        Seq::empty()
    }
}

/// What the transformation of a module goes by.
pub open spec fn env_of(symbols: DtsSymbols, is_root: bool) -> Env {
    Env {
        ranges: Some(symbols.ranges@),
        comments: symbols.comments.leading@,
        in_namespace: !is_root,
        sources: sources_of(symbols.sources@),
    }
}

/// An item of the root. What it declares itself is declared as such.
pub open spec fn declared_item(t: Tree) -> Tree {
    if t.kind == Kind::ClassDecl || t.kind == Kind::FnDecl || t.kind == Kind::VarDecl || t.kind
        == Kind::TsModuleDecl {
        Tree { flags: Flags { declare: true, ..t.flags }, ..t }
    } else {
        t
    }
}

/// The items of the root.
pub open spec fn declared_items(s: Seq<Tree>) -> Seq<Tree> {
    Seq::new(s.len(), |i: int| declared_item(s[i]))
}

/// Whether a part of an import binds a symbol of the public API.
pub open spec fn binds_public(t: Tree, public_ids: Set<(Seq<char>, u32)>) -> bool {
    has_part(t, Role::Local) && public_ids.contains(id_of(child(t, Role::Local)))
}

/// The declaration that stands for a part of an import, where the imported module
/// has the number.
pub open spec fn import_alias(t: Tree, id: int, is_remote: bool) -> Option<Tree> {
    let local = child(t, Role::Local);
    let default_pack = if is_remote {
        default_pack_name(id)
    } else {
        pack_name(id)
    };
    if t.kind == Kind::ImportNamed {
        let name = if has_part(t, Role::Imported) {
            child(t, Role::Imported).text
        } else {
            local.text
        };
        Some(
            import_equals_tree(
                local,
                qualified_tree(
                    if name == "default"@ {
                        default_pack
                    } else {
                        pack_name(id)
                    },
                    namespace_name(name),
                ),
                false,
            ),
        )
    } else if t.kind == Kind::ImportDefault {
        Some(import_equals_tree(local, qualified_tree(default_pack, "__default"@), false))
    } else if t.kind == Kind::ImportNamespace {
        Some(import_equals_tree(local, entity_tree(pack_name(id)), false))
    } else {
        None
    }
}

/// Whether a part of an import can be dealt with: what is imported has an
/// identifier for a name.
pub open spec fn import_part_supported(t: Tree, public_ids: Set<(Seq<char>, u32)>) -> bool {
    binds_public(t, public_ids) && t.kind == Kind::ImportNamed && has_part(t, Role::Imported)
        ==> child(t, Role::Imported).kind != Kind::Str
}

/// The declarations that stand for the first `n` parts of an import.
pub open spec fn import_parts_upto(
    s: Seq<Tree>,
    n: nat,
    public_ids: Set<(Seq<char>, u32)>,
    id: int,
    is_remote: bool,
) -> Seq<Tree>
    decreases n,
{
    if n == 0 {
        Seq::empty()
    } else {
        let before = import_parts_upto(s, (n - 1) as nat, public_ids, id, is_remote);
        if binds_public(s[n - 1], public_ids) {
            match import_alias(s[n - 1], id, is_remote) {
                Some(t) => before.push(at(Role::Item, t)),
                None => before,
            }
        } else {
            before
        }
    }
}

/// The number of the module that an import names, and whether it is on the web.
pub open spec fn import_source(t: Tree, env: Env) -> Option<(int, bool)> {
    if t.kind == Kind::ImportDecl && has_part(t, Role::Source) && has_key(
        env.sources,
        child(t, Role::Source).text,
    ) {
        let found = env.sources[key_place(env.sources, child(t, Role::Source).text)].1;
        match found.0 {
            Some(id) => Some((id as int, found.1)),
            None => None,
        }
    } else {
        None
    }
}

/// The declarations that stand for the imports among the first `n` items.
pub open spec fn imports_upto(
    items: Seq<Tree>,
    n: nat,
    env: Env,
    public_ids: Set<(Seq<char>, u32)>,
) -> Seq<Tree>
    decreases n,
{
    if n == 0 {
        Seq::empty()
    } else {
        let before = imports_upto(items, (n - 1) as nat, env, public_ids);
        let t = items[n - 1];
        match import_source(t, env) {
            Some(source) => before + import_parts_upto(
                t.children,
                t.children.len(),
                public_ids,
                source.0,
                source.1,
            ),
            None => before,
        }
    }
}

/// Whether the imports of a module can be dealt with.
pub open spec fn imports_supported(
    items: Seq<Tree>,
    env: Env,
    public_ids: Set<(Seq<char>, u32)>,
) -> bool {
    forall|i: int, j: int|
        #![trigger items[i].children[j]]
        0 <= i < items.len() && 0 <= j < items[i].children.len() && import_source(
            items[i],
            env,
        ) is Some ==> import_part_supported(items[i].children[j], public_ids)
}

/// The first `n` exports that a module has of others: an import of each, and its
/// export.
pub open spec fn traced_upto(s: Seq<TracedReExport>, n: nat) -> Seq<Tree>
    decreases n,
{
    if n == 0 {
        Seq::empty()
    } else {
        let name = export_name_text(n);
        traced_upto(s, (n - 1) as nat) + seq![
            at(
                Role::Item,
                import_equals_tree(
                    name_tree(name),
                    qualified_tree(pack_name(s[n - 1].module_id.0 as int), s[n - 1].name@),
                    false,
                ),
            ),
            at(Role::Item, export_as_tree(name, s[n - 1].name@)),
        ]
    }
}

/// The items of a module before they are transformed.
pub open spec fn module_items(symbols: DtsSymbols, is_root: bool) -> Seq<Tree> {
    let items = symbols.module@.children;
    imports_upto(items, items.len(), env_of(symbols, is_root), symbols.public_ids@) + (
    if is_root {
        declared_items(items)
    } else {
        items
    }) + traced_upto(symbols.traced_re_exports@, symbols.traced_re_exports@.len())
}

/// The state before the items of a module are transformed.
pub open spec fn module_start(symbols: DtsSymbols) -> State {
    State { given: symbols.traced_re_exports@.len(), ..fresh() }
}

/// The items of a module, transformed.
pub open spec fn module_visited(symbols: DtsSymbols, is_root: bool) -> Visited {
    let items = module_items(symbols, is_root);
    let env = env_of(symbols, is_root);
    block_out(items, env, visitor(items, env), module_start(symbols))
}

/// The items that a module becomes.
pub open spec fn module_output(symbols: DtsSymbols, is_root: bool) -> Seq<Tree> {
    let v = module_visited(symbols, is_root);
    if is_root {
        v.trees
    } else {
        seq![
            at(Role::Item, namespace_tree(pack_name(symbols.module_id.0 as int), v.trees)),
        ]
    }
}

/// Whether a module can be dealt with, and its positions fit in the source map.
pub open spec fn module_ok(symbols: DtsSymbols, is_root: bool) -> bool {
    &&& imports_supported(
        symbols.module@.children,
        env_of(symbols, is_root),
        symbols.public_ids@,
    )
    &&& !module_visited(symbols, is_root).st.unsupported
    &&& can_move(
        made(Kind::Module, module_output(symbols, is_root)),
        symbols.start_pos as nat,
    )
    &&& comments_can_move(symbols.comments.leading@, symbols.start_pos as nat)
}

/// Whether a file goes into the output: something of it is part of the public API.
pub open spec fn is_emitted(m: DtsModule) -> bool {
    !is_remote_url(m.specifier@) && m.symbols is Some && (m.symbols.unwrap().ranges@.len() > 0
        || m.symbols.unwrap().traced_re_exports@.len() > 0)
}

/// Whether a module is one of the roots.
pub open spec fn is_root_url(roots: Seq<Seq<char>>, url: Seq<char>) -> bool {
    roots.contains(url)
}

/// What the modules become.
pub struct Output {
    /// The imports of modules on the web.
    pub remote: Seq<Tree>,
    /// The namespaces for default exports of modules on the web.
    pub defaults: Seq<Tree>,
    /// The items of files.
    pub files: Seq<Tree>,
    /// The functions without a return type: the file, and where they start there.
    pub missing_types: Seq<(Seq<char>, u32)>,
}

/// The places with the file in which they are.
pub open spec fn in_file(url: Seq<char>, s: Seq<u32>) -> Seq<(Seq<char>, u32)> {
    Seq::new(s.len(), |i: int| (url, s[i]))
}

/// What the modules become with one more.
pub open spec fn with_module(out: Output, m: DtsModule, roots: Seq<Seq<char>>) -> Output {
    let is_root = is_root_url(roots, m.specifier@);
    if is_remote_url(m.specifier@) {
        match m.symbols {
            Some(symbols) => Output {
                remote: out.remote + remote_imports(m.specifier@, symbols),
                defaults: out.defaults + default_namespace(symbols),
                ..out
            },
            None => out,
        }
    } else if is_emitted(m) {
        let symbols = m.symbols.unwrap();
        Output {
            files: out.files + moved(
                made(Kind::Module, module_output(symbols, is_root)),
                symbols.start_pos as nat,
            ).children,
            missing_types: out.missing_types + in_file(
                m.specifier@,
                module_visited(symbols, is_root).st.missing_types,
            ),
            ..out
        }
    } else {
        out
    }
}

/// What the first `n` modules become.
pub open spec fn output_upto(modules: Seq<DtsModule>, n: nat, roots: Seq<Seq<char>>) -> Output
    decreases n,
{
    if n == 0 {
        Output {
            remote: Seq::empty(),
            defaults: Seq::empty(),
            files: Seq::empty(),
            missing_types: Seq::empty(),
        }
    } else {
        with_module(output_upto(modules, (n - 1) as nat, roots), modules[n - 1], roots)
    }
}

/// The leading comments at a position that come from the first `n` modules.
pub open spec fn comments_upto(modules: Seq<DtsModule>, n: nat, pos: int) -> Seq<CommentText>
    decreases n,
{
    if n == 0 {
        Seq::empty()
    } else if is_emitted(modules[n - 1]) {
        let symbols = modules[n - 1].symbols.unwrap();
        comments_upto(modules, (n - 1) as nat, pos) + taken(
            comments_at(symbols.comments.leading@, pos - symbols.start_pos),
            CommentFilter::OnlyJsDoc,
            symbols.start_pos as nat,
        )
    } else {
        comments_upto(modules, (n - 1) as nat, pos)
    }
}

/// The items of the declaration file.
pub open spec fn dts_items(modules: Seq<DtsModule>, roots: Seq<Seq<char>>) -> Seq<Tree> {
    let out = output_upto(modules, modules.len(), roots);
    out.remote + out.defaults + out.files
}

/// Whether every module that goes into the output can be dealt with.
pub open spec fn all_ok(modules: Seq<DtsModule>, roots: Seq<Seq<char>>) -> bool {
    forall|i: int|
        0 <= i < modules.len() && is_emitted(#[trigger] modules[i]) ==> module_ok(
            modules[i].symbols.unwrap(),
            is_root_url(roots, modules[i].specifier@),
        )
}

/// A function without a return type.
#[derive(Debug)]
pub struct MissingType {
    pub specifier: ModuleSpecifier,
    pub pos: u32,
}

/// What a sequence of functions without a return type stands for.
pub open spec fn missing_of(s: Seq<MissingType>) -> Seq<(Seq<char>, u32)> {
    Seq::new(s.len(), |i: int| (s[i].specifier@, s[i].pos))
}

/// The message for a function without a return type.
pub fn missing_return_type_message() -> (r: String)
    ensures
        r@ == "Missing return type for function with return statement."@,
{
    "Missing return type for function with return statement.".to_owned()
}

/// The message for a default export that is no identifier.
pub fn unsupported_default_expr_message() -> (r: String)
    ensures
        r@ == "Default expressions that are not identifiers are not supported. "@
            + "To work around this, extract out the expression to a variable, "@
            + "type the variable, and then default export the variable declaration."@,
{
    let mut r: String = "Default expressions that are not identifiers are not supported. ".to_owned();
    r.append("To work around this, extract out the expression to a variable, ");
    r.append("type the variable, and then default export the variable declaration.");
    r
}

fn has_default(e: &ImportedExports) -> (r: bool)
    ensures
        r == imports_default(*e),
{
    match e {
        ImportedExports::AllWithDefault => true,
        ImportedExports::Star => false,
        ImportedExports::Named(names) => crate::text::holds(names, "default"),
    }
}

fn has_others(e: &ImportedExports) -> (r: bool)
    ensures
        r == imports_others(*e),
{
    match e {
        ImportedExports::AllWithDefault => true,
        ImportedExports::Star => true,
        ImportedExports::Named(names) => {
            let mut i: usize = 0;
            while i < names.len()
                invariant
                    i <= names@.len(),
                    *e == ImportedExports::Named(*names),
                    forall|j: int| 0 <= j < i ==> (#[trigger] names@[j])@ == "default"@,
                decreases names@.len() - i,
            {
                if !same_text(names[i].as_str(), "default") {
                    assert(match *e {
                        ImportedExports::Named(all) => all@[i as int]@ != "default"@,
                        _ => false,
                    });
                    return true;
                }
                i = i + 1;
            }
            false
        },
    }
}

/// Whether a file imports the default export, or something else.
fn is_imported(referrers: &Vec<Referrer>, of_default: bool) -> (r: bool)
    ensures
        r == (if of_default {
            default_imported(referrers@)
        } else {
            others_imported(referrers@)
        }),
{
    let mut i: usize = 0;
    while i < referrers.len()
        invariant
            i <= referrers@.len(),
            forall|j: int|
                0 <= j < i ==> !(refers_locally(#[trigger] referrers@[j]) && (if of_default {
                    imports_default(referrers@[j].imported)
                } else {
                    imports_others(referrers@[j].imported)
                })),
        decreases referrers@.len() - i,
    {
        let referrer: &Referrer = &referrers[i];
        let local: bool = match &referrer.specifier {
            Some(specifier) => specifier.is_file(),
            None => false,
        };
        let imports: bool = if of_default {
            has_default(&referrer.imported)
        } else {
            has_others(&referrer.imported)
        };
        if local && imports {
            assert(refers_locally(referrers@[i as int]));
            return true;
        }
        i = i + 1;
    }
    false
}

fn default_code(id: ModuleId) -> (r: String)
    ensures
        r@ == default_import_name(id.0 as int),
{
    id.to_code_string().concat("DefaultImport")
}

fn import_with(specifier: Node, url: String) -> (r: Node)
    ensures
        r@ == made(
            Kind::ImportDecl,
            seq![at(Role::Specifier, specifier@), at(Role::Source, word(Kind::Str, url@))],
        ),
{
    make(
        Kind::ImportDecl,
        two(placed(Role::Specifier, specifier), placed(Role::Source, make_word(Kind::Str, url))),
    )
}

/// `declare module <name> { .. }`
pub fn make_namespace(name: String, items: Vec<Node>) -> (r: Node)
    ensures
        r@ == namespace_tree(name@, trees(items@)),
{
    let mut r: Node = make(
        Kind::TsModuleDecl,
        two(placed(Role::Name, ident(name)), placed(Role::Body, make(Kind::TsModuleBlock, items))),
    );
    r.flags.declare = true;
    r
}

/// Adds the imports that stand for a module on the web.
fn add_remote(
    specifier: &ModuleSpecifier,
    symbols: &DtsSymbols,
    remote: &mut Vec<Node>,
    defaults: &mut Vec<Node>,
)
    ensures
        trees(final(remote)@) == trees(old(remote)@) + remote_imports(specifier@, *symbols),
        trees(final(defaults)@) == trees(old(defaults)@) + default_namespace(*symbols),
{
    broadcast use group_trees;

    let ghost first = trees(remote@);
    let ghost second = trees(defaults@);
    let id: ModuleId = symbols.module_id;
    if is_imported(&symbols.referrers, true) {
        let named: Node = make(
            Kind::ImportNamed,
            two(
                placed(Role::Local, ident(default_code(id))),
                placed(Role::Imported, ident("default".to_owned())),
            ),
        );
        remote.push(placed(Role::Item, import_with(named, specifier.text.clone())));
        let export: Node = export_x_as_y(default_code(id), "__default".to_owned());
        let items: Vec<Node> = one(placed(Role::Item, export));
        defaults.push(
            placed(Role::Item, make_namespace(id.to_default_code_string(), items)),
        );
    }
    if is_imported(&symbols.referrers, false) {
        let star: Node = make(
            Kind::ImportNamespace,
            one(placed(Role::Local, ident(id.to_code_string()))),
        );
        remote.push(placed(Role::Item, import_with(star, specifier.text.clone())));
    }
    assert(trees(remote@) =~= first + remote_imports(specifier@, *symbols));
    assert(trees(defaults@) =~= second + default_namespace(*symbols));
}

/// The declaration that stands for a part of an import.
fn make_import_alias(n: &Node, id: ModuleId, is_remote: bool) -> (r: Option<Node>)
    requires
        has_part(n@, Role::Local),
    ensures
        match r {
            Some(t) => import_alias(n@, id.0 as int, is_remote) == Some(t@),
            None => import_alias(n@, id.0 as int, is_remote) is None,
        },
{
    let local: &Node = n.get(Role::Local).unwrap();
    let default_pack: String = if is_remote {
        id.to_default_code_string()
    } else {
        id.to_code_string()
    };
    match n.kind {
        Kind::ImportNamed => {
            let name: String = match n.get(Role::Imported) {
                Some(imported) => imported.text.clone(),
                None => local.text.clone(),
            };
            let left: String = if same_text(name.as_str(), "default") {
                default_pack
            } else {
                id.to_code_string()
            };
            let entity: Node = qualified_name(left, to_namespace_name(name.as_str()));
            Some(import_equals(local.dup(), entity, false))
        },
        Kind::ImportDefault => Some(
            import_equals(
                local.dup(),
                qualified_name(default_pack, "__default".to_owned()),
                false,
            ),
        ),
        Kind::ImportNamespace => Some(
            import_equals(local.dup(), entity_name(id.to_code_string()), false),
        ),
        _ => None,
    }
}

/// Adds the declarations that stand for the imports of a module.
fn add_imports(symbols: &DtsSymbols, env: &ModuleEnv, r: &mut Vec<Node>)
    requires
        env@ == env_of(*symbols, !env.in_namespace),
    ensures
        trees(final(r)@) == trees(old(r)@) + imports_upto(
            symbols.module@.children,
            symbols.module@.children.len(),
            env@,
            symbols.public_ids@,
        ),
{
    broadcast use group_trees;

    let ghost first = trees(r@);
    let ghost items = symbols.module@.children;
    let ghost public = symbols.public_ids@;
    let mut i: usize = 0;
    assert(trees(r@) =~= first + imports_upto(items, 0, env@, public));
    while i < symbols.module.children.len()
        invariant
            i <= symbols.module.children@.len(),
            items == symbols.module@.children,
            public == symbols.public_ids@,
            trees(r@) == first + imports_upto(items, i as nat, env@, public),
        decreases symbols.module.children@.len() - i,
    {
        let item: &Node = &symbols.module.children[i];
        assert(items[i as int] == item@);
        let ghost earlier = trees(r@);
        if item.kind == Kind::ImportDecl {
            match item.get(Role::Source) {
                Some(source) => match env.source(source.text.as_str()) {
                    Some(found) => match found.0 {
                        Some(id) => {
                            let ghost parts = item@.children;
                            let mut j: usize = 0;
                            assert(trees(r@) =~= earlier + import_parts_upto(
                                parts,
                                0,
                                public,
                                id as int,
                                found.1,
                            ));
                            while j < item.children.len()
                                invariant
                                    j <= item.children@.len(),
                                    parts == item@.children,
                                    public == symbols.public_ids@,
                                    trees(r@) == earlier + import_parts_upto(
                                        parts,
                                        j as nat,
                                        public,
                                        id as int,
                                        found.1,
                                    ),
                                decreases item.children@.len() - j,
                            {
                                broadcast use group_trees;

                                let n: &Node = &item.children[j];
                                assert(parts[j as int] == n@);
                                let is_public: bool = match n.get(Role::Local) {
                                    Some(local) => symbols.public_ids.contains(&local.to_id()),
                                    None => false,
                                };
                                if is_public {
                                    match make_import_alias(n, ModuleId(id), found.1) {
                                        Some(t) => {
                                            r.push(placed(Role::Item, t));
                                        },
                                        None => {},
                                    }
                                }
                                j = j + 1;
                                assert(trees(r@) =~= earlier + import_parts_upto(
                                    parts,
                                    j as nat,
                                    public,
                                    id as int,
                                    found.1,
                                ));
                            }
                        },
                        None => {},
                    },
                    None => {},
                },
                None => {},
            }
        }
        i = i + 1;
        assert(trees(r@) =~= first + imports_upto(items, i as nat, env@, public));
    }
}

/// The items of a module before they are transformed.
fn make_items(
    symbols: &DtsSymbols,
    env: &ModuleEnv,
    transformer: &mut DtsTransformer,
    is_root: bool,
) -> (r: Vec<Node>)
    requires
        env@ == env_of(*symbols, is_root),
        old(transformer)@ == fresh(),
    ensures
        trees(r@) == module_items(*symbols, is_root),
        final(transformer)@ == module_start(*symbols),
{
    broadcast use group_trees;

    let mut r: Vec<Node> = Vec::new();
    add_imports(symbols, env, &mut r);
    let ghost imports = imports_upto(
        symbols.module@.children,
        symbols.module@.children.len(),
        env@,
        symbols.public_ids@,
    );
    assert(trees(r@) =~= imports);
    let ghost own = if is_root {
        declared_items(symbols.module@.children)
    } else {
        symbols.module@.children
    };
    let mut i: usize = 0;
    while i < symbols.module.children.len()
        invariant
            i <= symbols.module.children@.len(),
            own == (if is_root {
                declared_items(symbols.module@.children)
            } else {
                symbols.module@.children
            }),
            trees(r@) == imports + own.take(i as int),
        decreases symbols.module.children@.len() - i,
    {
        broadcast use group_trees;

        assert(symbols.module@.children[i as int] == symbols.module.children@[i as int]@);
        let mut item: Node = symbols.module.children[i].dup();
        if is_root {
            match item.kind {
                Kind::ClassDecl | Kind::FnDecl | Kind::VarDecl | Kind::TsModuleDecl => {
                    item.flags.declare = true;
                },
                _ => {},
            }
        }
        r.push(item);
        i = i + 1;
        assert(trees(r@) =~= imports + own.take(i as int));
    }
    let ghost first = imports + own;
    let ghost traced = symbols.traced_re_exports@;
    let mut i: usize = 0;
    assert(trees(r@) =~= first + traced_upto(traced, 0));
    while i < symbols.traced_re_exports.len()
        invariant
            i <= symbols.traced_re_exports@.len(),
            traced == symbols.traced_re_exports@,
            transformer@ == (State { given: i as nat, ..fresh() }),
            trees(r@) == first + traced_upto(traced, i as nat),
        decreases symbols.traced_re_exports@.len() - i,
    {
        broadcast use group_trees;

        let re_export: &TracedReExport = &symbols.traced_re_exports[i];
        let name: ReExportName = transformer.next_re_export_name();
        let entity: Node = qualified_name(
            re_export.module_id.to_code_string(),
            re_export.name.clone(),
        );
        r.push(
            placed(Role::Item, import_equals(ident(name.to_string()), entity, false)),
        );
        r.push(placed(Role::Item, name.into_module_item(re_export.name.clone())));
        i = i + 1;
        assert(trees(r@) =~= first + traced_upto(traced, i as nat));
    }
    r
}

/// The items that a module becomes, with what was noted on the way.
fn transform_module(symbols: &DtsSymbols, is_root: bool) -> (r: (Vec<Node>, DtsTransformer))
    ensures
        trees(r.0@) == module_output(*symbols, is_root),
        r.1@ == module_visited(*symbols, is_root).st,
{
    let env = ModuleEnv {
        ranges: Some(&symbols.ranges),
        comments: &symbols.comments,
        in_namespace: !is_root,
        sources: &symbols.sources,
    };
    let mut transformer: DtsTransformer = DtsTransformer::new();
    let items: Vec<Node> = make_items(symbols, &env, &mut transformer, is_root);
    let items: Vec<Node> = transformer.visit_mut_module_items(&env, &items);
    if is_root {
        (items, transformer)
    } else {
        let namespace: Node = make_namespace(symbols.module_id.to_code_string(), items);
        (one(placed(Role::Item, namespace)), transformer)
    }
}

fn supports_imports(symbols: &DtsSymbols, env: &ModuleEnv) -> (r: bool)
    ensures
        r == imports_supported(symbols.module@.children, env@, symbols.public_ids@),
{
    let ghost items = symbols.module@.children;
    let ghost public = symbols.public_ids@;
    let mut i: usize = 0;
    while i < symbols.module.children.len()
        invariant
            i <= symbols.module.children@.len(),
            items == symbols.module@.children,
            public == symbols.public_ids@,
            forall|k: int, j: int|
                #![trigger items[k].children[j]]
                0 <= k < i && 0 <= j < items[k].children.len() && import_source(
                    items[k],
                    env@,
                ) is Some ==> import_part_supported(items[k].children[j], public),
        decreases symbols.module.children@.len() - i,
    {
        let item: &Node = &symbols.module.children[i];
        assert(items[i as int] == item@);
        let found: bool = item.kind == Kind::ImportDecl && match item.get(Role::Source) {
            Some(source) => match env.source(source.text.as_str()) {
                Some(found) => found.0.is_some(),
                None => false,
            },
            None => false,
        };
        if found {
            let mut j: usize = 0;
            while j < item.children.len()
                invariant
                    j <= item.children@.len(),
                    i < items.len(),
                    items == symbols.module@.children,
                    items[i as int] == item@,
                    import_source(item@, env@) is Some,
                    public == symbols.public_ids@,
                    forall|k: int|
                        #![trigger item@.children[k]]
                        0 <= k < j ==> import_part_supported(item@.children[k], public),
                decreases item.children@.len() - j,
            {
                let n: &Node = &item.children[j];
                assert(item@.children[j as int] == n@);
                let is_public: bool = match n.get(Role::Local) {
                    Some(local) => symbols.public_ids.contains(&local.to_id()),
                    None => false,
                };
                let is_string: bool = match n.get(Role::Imported) {
                    Some(imported) => imported.kind == Kind::Str,
                    None => false,
                };
                if is_public && n.kind == Kind::ImportNamed && is_string {
                    assert(!import_part_supported(items[i as int].children[j as int], public));
                    return false;
                }
                j = j + 1;
            }
        }
        i = i + 1;
    }
    true
}

impl DtsModule {
    /// Whether the module goes into the output as more than an import.
    pub fn is_emitted(&self) -> (r: bool)
        ensures
            r == is_emitted(*self),
    {
        !is_remote_specifier(&self.specifier) && match &self.symbols {
            Some(symbols) => symbols.ranges.len() > 0 || symbols.traced_re_exports.len() > 0,
            None => false,
        }
    }

    /// Whether the module can be dealt with, and its positions fit in the source
    /// map.
    pub fn is_supported(&self, roots: &Vec<ModuleSpecifier>) -> (r: bool)
        ensures
            r == (is_emitted(*self) ==> module_ok(
                self.symbols.unwrap(),
                is_root_url(urls(roots@), self.specifier@),
            )),
    {
        if !self.is_emitted() {
            return true;
        }
        let is_root: bool = holds_specifier(roots, &self.specifier);
        match &self.symbols {
            Some(symbols) => {
                let env = ModuleEnv {
                    ranges: Some(&symbols.ranges),
                    comments: &symbols.comments,
                    in_namespace: !is_root,
                    sources: &symbols.sources,
                };
                if !supports_imports(symbols, &env) {
                    return false;
                }
                let (items, transformer) = transform_module(symbols, is_root);
                !transformer.unsupported && spans_fit(
                    &make(Kind::Module, items),
                    symbols.start_pos,
                ) && comments_fit(&symbols.comments.leading, symbols.start_pos)
            },
            None => true,
        }
    }
}

fn holds_specifier(roots: &Vec<ModuleSpecifier>, specifier: &ModuleSpecifier) -> (r: bool)
    ensures
        r == is_root_url(urls(roots@), specifier@),
{
    let ghost all = urls(roots@);
    let mut i: usize = 0;
    while i < roots.len()
        invariant
            i <= roots@.len(),
            all == urls(roots@),
            forall|j: int| 0 <= j < i ==> all[j] != specifier@,
        decreases roots@.len() - i,
    {
        assert(all[i as int] == roots@[i as int]@);
        if roots[i].same(specifier) {
            return true;
        }
        i = i + 1;
    }
    false
}

/// A declaration file, with its comments, and what is to be said of its sources.
#[derive(Debug)]
pub struct PackedDts {
    pub module: Node,
    pub comments: Comments,
    pub missing_types: Vec<MissingType>,
}

/// Packs the declarations of the modules of a graph into one file: those of the
/// roots at its top level, those of other files in namespaces, and imports of what
/// is on the web.
pub fn pack_dts(modules: &Vec<DtsModule>, roots: &Vec<ModuleSpecifier>) -> (r: PackedDts)
    requires
        all_ok(modules@, urls(roots@)),
    ensures
        r.module@ == made(Kind::Module, dts_items(modules@, urls(roots@))),
        missing_of(r.missing_types@) == output_upto(
            modules@,
            modules@.len(),
            urls(roots@),
        ).missing_types,
        forall|pos: int| #[trigger]
            comments_at(r.comments.leading@, pos) == comments_upto(
                modules@,
                modules@.len(),
                pos,
            ),
        r.comments.trailing@.len() == 0,
{
    broadcast use group_trees;

    let ghost all = modules@;
    let ghost root_urls = urls(roots@);
    let mut remote: Vec<Node> = Vec::new();
    let mut defaults: Vec<Node> = Vec::new();
    let mut files: Vec<Node> = Vec::new();
    let mut missing_types: Vec<MissingType> = Vec::new();
    let mut comments = Comments { leading: Vec::new(), trailing: Vec::new() };
    let mut i: usize = 0;
    assert(missing_of(missing_types@) =~= Seq::<(Seq<char>, u32)>::empty());
    assert(trees(remote@) =~= Seq::<Tree>::empty());
    while i < modules.len()
        invariant
            i <= modules@.len(),
            all == modules@,
            root_urls == urls(roots@),
            all_ok(all, root_urls),
            trees(remote@) == output_upto(all, i as nat, root_urls).remote,
            trees(defaults@) == output_upto(all, i as nat, root_urls).defaults,
            trees(files@) == output_upto(all, i as nat, root_urls).files,
            missing_of(missing_types@) == output_upto(all, i as nat, root_urls).missing_types,
            comments.trailing@.len() == 0,
            forall|pos: int| #[trigger]
                comments_at(comments.leading@, pos) == comments_upto(all, i as nat, pos),
        decreases modules@.len() - i,
    {
        broadcast use group_trees;

        let module: &DtsModule = &modules[i];
        let is_root: bool = holds_specifier(roots, &module.specifier);
        let ghost out = output_upto(all, i as nat, root_urls);
        if is_remote_specifier(&module.specifier) {
            match &module.symbols {
                Some(symbols) => {
                    add_remote(&module.specifier, symbols, &mut remote, &mut defaults);
                },
                None => {},
            }
        } else if module.is_emitted() {
            match &module.symbols {
                Some(symbols) => {
                    assert(is_emitted(all[i as int]));
                    let (items, transformer) = transform_module(symbols, is_root);
                    let mut packed: Node = make(Kind::Module, items);
                    // move the positions to where they are in the source map
                    adjust_spans(symbols.start_pos, &mut packed);
                    files.append(&mut packed.children);
                    // trailing comments are left out, because only JSDoc comments count
                    fill_leading_comments(
                        symbols.start_pos,
                        &symbols.comments,
                        &mut comments,
                        CommentFilter::OnlyJsDoc,
                    );
                    let ghost noted = transformer.missing_types@;
                    let ghost before = missing_of(missing_types@);
                    let mut j: usize = 0;
                    assert(missing_of(missing_types@) =~= before + in_file(
                        module.specifier@,
                        noted,
                    ).take(0));
                    while j < transformer.missing_types.len()
                        invariant
                            j <= transformer.missing_types@.len(),
                            noted == transformer.missing_types@,
                            missing_of(missing_types@) == before + in_file(
                                module.specifier@,
                                noted,
                            ).take(j as int),
                        decreases transformer.missing_types@.len() - j,
                    {
                        let ghost earlier = missing_of(missing_types@);
                        let missing = MissingType {
                            specifier: module.specifier.dup(),
                            pos: transformer.missing_types[j],
                        };
                        missing_types.push(missing);
                        assert(missing_of(missing_types@) =~= earlier.push(
                            (module.specifier@, noted[j as int]),
                        ));
                        j = j + 1;
                        assert(missing_of(missing_types@) =~= before + in_file(
                            module.specifier@,
                            noted,
                        ).take(j as int));
                    }
                    assert(in_file(module.specifier@, noted).take(j as int) =~= in_file(
                        module.specifier@,
                        noted,
                    ));
                },
                None => {},
            }
        }
        i = i + 1;
    }
    remote.append(&mut defaults);
    remote.append(&mut files);
    PackedDts { module: make(Kind::Module, remote), comments, missing_types }
}

}
