//! Concatenation of the modules of a graph into one JavaScript module.
//!
//! Every module but the root becomes an object, `pack0`, `pack1`, .., and a
//! function that is called once and defines the object's properties. The root
//! stays at the top level and keeps its exports. Modules on the web stay where
//! they are and are imported.

use vstd::prelude::*;

use crate::collections::{has_key, key_place};
use crate::comments::{
    comments_at, comments_can_move, comments_fit, fill_leading_comments, fill_trailing_comments,
    taken, CommentFilter, CommentGroup, CommentText, Comments,
};
use crate::helpers::{
    adjust_spans, can_move, const_var_decl, const_var_tree, ident, ident_expr, key_value,
    key_value_tree, made, make, make_word, moved, name_expr_tree, name_tree, one, placed,
    spans_fit, two, word,
};
use crate::pack_js::analyze::{
    analyze_esm_module, analyzed, dependencies_of, is_stmt, law_numbers_are_kept,
    module_supported, EsmModule,
};
use crate::pack_js::data::{
    code_name, export_names, lemma_mentioned, mentioned, Data, ModuleDataCollection, ModuleId,
};
use crate::pack_js::emit::{emit_module, module_output};
use crate::specifier::{
    all_wf, displayed, displayed_specifier, get_root_dir, identifier_text, is_file_url, root_dir,
    to_identifier, urls, ModuleSpecifier,
};
use crate::syntax::{at, group_trees, trees, Kind, Node, Role, Tree};
use crate::text::{texts, trim, trimmed};

pub mod analyze;
pub mod data;
pub mod emit;
pub mod export_laws;
pub mod item_laws;
pub mod known_laws;
pub mod laws;
pub mod order_laws;
pub mod rewrite_laws;
pub mod star_laws;
pub mod transform;

verus! {

/// How modules are packed.
#[derive(Debug, Clone, Copy)]
pub struct PackOptions {
    /// If the packing should hold remote modules or leave them as external.
    pub include_remote: bool,
}

/// A JSON module.
#[derive(Debug)]
pub struct JsonModule {
    pub specifier: ModuleSpecifier,
    pub source: String,
}

/// A module of the graph.
#[derive(Debug)]
pub enum GraphModule {
    Esm(EsmModule),
    Json(JsonModule),
}

impl GraphModule {
    /// The module's URL.
    pub open spec fn url(&self) -> Seq<char> {
        match self {
            GraphModule::Esm(esm) => esm.specifier@,
            GraphModule::Json(json) => json.specifier@,
        }
    }

    /// The module's specifier is well formed.
    pub open spec fn wf(&self) -> bool {
        match self {
            GraphModule::Esm(esm) => esm.specifier.wf(),
            GraphModule::Json(json) => json.specifier.wf(),
        }
    }

    pub fn specifier(&self) -> (r: &ModuleSpecifier)
        ensures
            r@ == self.url(),
            r.wf() == self.wf(),
    {
        match self {
            GraphModule::Esm(esm) => &esm.specifier,
            GraphModule::Json(json) => &json.specifier,
        }
    }
}

/// Whether the dependencies of a module are left alone: those of a module that
/// stays external are.
pub fn skips_dependencies(specifier: &ModuleSpecifier, options: PackOptions) -> (r: bool)
    ensures
        r == (!options.include_remote && !is_file_url(specifier@)),
{
    !options.include_remote && !specifier.is_file()
}

/// Whether the code of a module goes into the output.
pub open spec fn is_packed(url: Seq<char>, options: PackOptions) -> bool {
    options.include_remote || is_file_url(url)
}

/// What is known of the modules after the first `n` of the graph were analyzed.
pub open spec fn analyzed_upto(
    modules: Seq<GraphModule>,
    n: nat,
    root: Seq<char>,
    options: PackOptions,
) -> Seq<(Seq<char>, Data)>
    decreases n,
{
    if n == 0 {
        Seq::empty()
    } else {
        let before = analyzed_upto(modules, (n - 1) as nat, root, options);
        match modules[n - 1] {
            GraphModule::Esm(esm) => if is_packed(esm.specifier@, options) {
                analyzed(
                    before,
                    esm.specifier@,
                    dependencies_of(esm.dependencies@),
                    esm.module@,
                    esm.specifier@ == root,
                )
            } else {
                before
            },
            GraphModule::Json(_) => before,
        }
    }
}

/// Whether every module whose code goes into the output can be dealt with.
pub open spec fn graph_supported(
    modules: Seq<GraphModule>,
    root: Seq<char>,
    options: PackOptions,
) -> bool {
    forall|i: int|
        0 <= i < modules.len() ==> module_ok(#[trigger] modules[i], root, options)
}

/// Whether a module can be dealt with, if its code goes into the output.
pub open spec fn module_ok(module: GraphModule, root: Seq<char>, options: PackOptions) -> bool {
    module.wf() && match module {
        GraphModule::Esm(esm) => is_packed(esm.specifier@, options) ==> module_supported(
            esm.module@.children,
            dependencies_of(esm.dependencies@),
            esm.specifier@ == root,
        ),
        GraphModule::Json(_) => true,
    }
}

/// The modules of a graph, in the order in which they were reached, with what is
/// known of them.
pub struct Analysis {
    pub root: ModuleSpecifier,
    pub options: PackOptions,
    pub modules: Vec<GraphModule>,
    pub data: ModuleDataCollection,
}

impl Analysis {
    /// What is known is what the analysis of the modules gives.
    pub open spec fn wf(&self) -> bool {
        &&& self.data.wf()
        &&& graph_supported(self.modules@, self.root@, self.options)
        &&& self.data@ == analyzed_upto(
            self.modules@,
            self.modules@.len(),
            self.root@,
            self.options,
        )
    }

    /// No modules yet.
    pub fn new(root: ModuleSpecifier, options: PackOptions) -> (r: Analysis)
        ensures
            r.wf(),
            r.root == root,
            r.options == options,
            r.modules@ == Seq::<GraphModule>::empty(),
    {
        Analysis { root, options, modules: Vec::new(), data: ModuleDataCollection::new() }
    }

    /// Takes in the next module of the graph.
    pub fn visit(&mut self, module: GraphModule)
        requires
            old(self).wf(),
            module_ok(module, old(self).root@, old(self).options),
        ensures
            final(self).wf(),
            final(self).root == old(self).root,
            final(self).options == old(self).options,
            final(self).modules@ == old(self).modules@.push(module),
    {
        let ghost before = self.modules@;
        let ghost after = before.push(module);
        match &module {
            GraphModule::Esm(esm) => {
                if self.options.include_remote || esm.specifier.is_file() {
                    analyze_esm_module(esm, &self.root, &mut self.data);
                }
            },
            GraphModule::Json(_) => {},
        }
        self.modules.push(module);
        proof {
            lemma_analyzed_upto_same(before, after, before.len(), self.root@, self.options);
            assert forall|i: int| 0 <= i < after.len() implies module_ok(
                #[trigger] after[i],
                self.root@,
                self.options,
            ) by {
                if i < before.len() {
                    assert(after[i] == before[i]);
                }
            }
        }
    }

    /// Whether the next module of the graph can be dealt with.
    pub fn can_visit(&self, module: &GraphModule) -> (r: bool)
        ensures
            r == module_ok(*module, self.root@, self.options),
    {
        module.specifier().is_well_formed() && match module {
            GraphModule::Esm(esm) => !(self.options.include_remote || esm.specifier.is_file())
                || esm.is_supported(esm.specifier.same(&self.root)),
            GraphModule::Json(_) => true,
        }
    }
}

proof fn lemma_analyzed_upto_same(
    a: Seq<GraphModule>,
    b: Seq<GraphModule>,
    n: nat,
    root: Seq<char>,
    options: PackOptions,
)
    requires
        n <= a.len() <= b.len(),
        forall|i: int| 0 <= i < n ==> a[i] == b[i],
    ensures
        analyzed_upto(a, n, root, options) == analyzed_upto(b, n, root, options),
    decreases n,
{
    if n > 0 {
        lemma_analyzed_upto_same(a, b, (n - 1) as nat, root, options);
    }
}

/// The specifiers of the files among the first `n` modules.
pub open spec fn files_upto(modules: Seq<GraphModule>, n: nat) -> Seq<Seq<char>>
    decreases n,
{
    if n == 0 {
        Seq::empty()
    } else if is_file_url(modules[n - 1].url()) {
        files_upto(modules, (n - 1) as nat).push(modules[n - 1].url())
    } else {
        files_upto(modules, (n - 1) as nat)
    }
}

/// The root folder of the files of a graph.
pub open spec fn graph_root_dir(modules: Seq<GraphModule>) -> Option<Seq<char>> {
    root_dir(files_upto(modules, modules.len()))
}

/// The import of a module that stays external.
pub open spec fn external_import_tree(code: Seq<char>, url: Seq<char>) -> Tree {
    made(
        Kind::ImportDecl,
        seq![
            at(
                Role::Specifier,
                made(Kind::ImportNamespace, seq![at(Role::Local, name_tree(code))]),
            ),
            at(Role::Source, word(Kind::Str, url)),
        ],
    )
}

/// The properties of an object without values.
pub open spec fn undefined_props(names: Seq<Seq<char>>) -> Seq<Tree> {
    Seq::new(
        names.len(),
        |i: int|
            at(
                Role::Prop,
                key_value_tree(name_tree(names[i]), name_expr_tree("undefined"@)),
            ),
    )
}

/// The declaration of a module's object, with a place for each export.
pub open spec fn object_decl_tree(code: Seq<char>, names: Seq<Seq<char>>) -> Tree {
    const_var_tree(code, made(Kind::ObjectLit, undefined_props(names)))
}

/// The declaration of a JSON module's object.
pub open spec fn json_text(shown: Seq<char>, code: Seq<char>, source: Seq<char>) -> Seq<char> {
    "// "@ + shown + "\nconst "@ + code + " = {\n  default: "@ + trimmed(source) + "\n};\n"@
}

/// The declarations that come first.
pub struct Header {
    pub data: Seq<(Seq<char>, Data)>,
    pub items: Seq<Tree>,
    pub text: Seq<char>,
}

/// The declarations with that of one more module.
pub open spec fn with_module(
    h: Header,
    module: GraphModule,
    root: Seq<char>,
    dir: Option<Seq<char>>,
) -> Header {
    let url = module.url();
    let data = mentioned(h.data, url);
    let code = code_name(key_place(data, url));
    if !is_file_url(url) {
        Header { data, items: h.items.push(at(Role::Item, external_import_tree(code, url))), ..h }
    } else {
        match module {
            GraphModule::Esm(_) => {
                let names = export_names(h.data, url);
                if names.len() == 0 || url == root {
                    Header { data, ..h }
                } else {
                    Header {
                        data,
                        items: h.items.push(at(Role::Item, object_decl_tree(code, names))),
                        ..h
                    }
                }
            },
            GraphModule::Json(json) => Header {
                data,
                text: h.text + json_text(displayed(dir, url), code, json.source@),
                ..h
            },
        }
    }
}

/// The declarations of those of the first `n` modules that are files, or of those
/// that are not.
pub open spec fn header_upto(
    modules: Seq<GraphModule>,
    n: nat,
    files: bool,
    root: Seq<char>,
    h: Header,
) -> Header
    decreases n,
{
    if n == 0 {
        h
    } else {
        let before = header_upto(modules, (n - 1) as nat, files, root, h);
        if is_file_url(modules[n - 1].url()) == files {
            with_module(before, modules[n - 1], root, graph_root_dir(modules))
        } else {
            before
        }
    }
}

/// The declarations of all modules: first of those on the web, then of the files.
pub open spec fn header(
    modules: Seq<GraphModule>,
    root: Seq<char>,
    data: Seq<(Seq<char>, Data)>,
) -> Header {
    header_upto(
        modules,
        modules.len(),
        true,
        root,
        header_upto(
            modules,
            modules.len(),
            false,
            root,
            Header { data, items: Seq::empty(), text: Seq::empty() },
        ),
    )
}

/// The code of a module.
pub open spec fn module_code(
    module: GraphModule,
    transpiled: Tree,
    root: Seq<char>,
    dir: Option<Seq<char>>,
    data: Seq<(Seq<char>, Data)>,
) -> Seq<Tree> {
    match module {
        GraphModule::Esm(esm) => module_output(
            data,
            esm.specifier@,
            esm.specifier@ == root,
            identifier_text(displayed(dir, esm.specifier@)),
            transpiled.children,
        ),
        GraphModule::Json(_) => Seq::empty(),
    }
}

/// The code of the modules from the last down to `from`, of those that are files
/// or of those that are not.
pub open spec fn code_from(
    modules: Seq<GraphModule>,
    transpiled: Seq<Tree>,
    from: int,
    files: bool,
    root: Seq<char>,
    data: Seq<(Seq<char>, Data)>,
) -> Seq<Tree>
    decreases modules.len() - from,
{
    if from >= modules.len() {
        Seq::empty()
    } else {
        let before = code_from(modules, transpiled, from + 1, files, root, data);
        if is_file_url(modules[from].url()) == files {
            before + module_code(
                modules[from],
                transpiled[from],
                root,
                graph_root_dir(modules),
                data,
            )
        } else {
            before
        }
    }
}

/// The items of the module that all the modules become.
pub open spec fn packed_items(
    modules: Seq<GraphModule>,
    transpiled: Seq<Tree>,
    root: Seq<char>,
    options: PackOptions,
    data: Seq<(Seq<char>, Data)>,
) -> Seq<Tree> {
    let h = header(modules, root, data);
    let remote = if options.include_remote {
        code_from(modules, transpiled, 0, false, root, h.data)
    } else {
        Seq::empty()
    };
    h.items + remote + code_from(modules, transpiled, 0, true, root, h.data)
}

/// The code and the comments of a module, moved to where its source file starts in the
/// source map; the JSDoc comments before its code are left out, as they stand with its
/// declarations. Nothing where a position would go beyond the last one that can be
/// held.
pub fn prepare_code(code: Node, comments: &Comments, start_pos: u32) -> (r: Option<
    (Node, Comments),
>)
    ensures
        r is Some <==> can_move(code@, start_pos as nat) && comments_can_move(
            comments.leading@,
            start_pos as nat,
        ) && comments_can_move(comments.trailing@, start_pos as nat),
        r is Some ==> r.unwrap().0@ == moved(code@, start_pos as nat),
        r is Some ==> forall|pos: int| #[trigger]
            comments_at(r.unwrap().1.leading@, pos) == taken(
                comments_at(comments.leading@, pos - start_pos),
                CommentFilter::NoJsDoc,
                start_pos as nat,
            ),
        r is Some ==> forall|pos: int| #[trigger]
            comments_at(r.unwrap().1.trailing@, pos) == taken(
                comments_at(comments.trailing@, pos - start_pos),
                CommentFilter::All,
                start_pos as nat,
            ),
{
    if !spans_fit(&code, start_pos) || !comments_fit(&comments.leading, start_pos)
        || !comments_fit(&comments.trailing, start_pos) {
        return None;
    }
    let mut module: Node = code;
    adjust_spans(start_pos, &mut module);
    let leading: Vec<CommentGroup> = Vec::new();
    let trailing: Vec<CommentGroup> = Vec::new();
    let mut taken_over = Comments { leading, trailing };
    assert forall|pos: int| #[trigger]
        comments_at(taken_over.leading@, pos) == Seq::<CommentText>::empty() && comments_at(
            taken_over.trailing@,
            pos,
        ) == Seq::<CommentText>::empty() by {}
    let ghost none = taken_over;
    fill_leading_comments(start_pos, comments, &mut taken_over, CommentFilter::NoJsDoc);
    let ghost led = taken_over;
    fill_trailing_comments(start_pos, comments, &mut taken_over);
    proof {
        assert forall|pos: int| #[trigger]
            comments_at(taken_over.leading@, pos) == taken(
                comments_at(comments.leading@, pos - start_pos),
                CommentFilter::NoJsDoc,
                start_pos as nat,
            ) by {
            assert(comments_at(none.leading@, pos) =~= Seq::<CommentText>::empty());
            assert(comments_at(led.leading@, pos) =~= taken(
                comments_at(comments.leading@, pos - start_pos),
                CommentFilter::NoJsDoc,
                start_pos as nat,
            ));
        }
        assert forall|pos: int| #[trigger]
            comments_at(taken_over.trailing@, pos) == taken(
                comments_at(comments.trailing@, pos - start_pos),
                CommentFilter::All,
                start_pos as nat,
            ) by {
            assert(comments_at(none.trailing@, pos) =~= Seq::<CommentText>::empty());
            assert(comments_at(taken_over.trailing@, pos) =~= taken(
                comments_at(comments.trailing@, pos - start_pos),
                CommentFilter::All,
                start_pos as nat,
            ));
        }
    }
    Some((module, taken_over))
}

/// Whether every item is a statement.
pub open spec fn all_statements(t: Tree) -> bool {
    forall|i: int| 0 <= i < t.children.len() ==> is_stmt((#[trigger] t.children[i]).kind)
}

/// Whether a module that is not the root holds only statements.
pub fn only_statements(module: &Node) -> (r: bool)
    ensures
        r == all_statements(module@),
{
    let mut i: usize = 0;
    while i < module.children.len()
        invariant
            i <= module.children@.len(),
            forall|j: int| 0 <= j < i ==> is_stmt((#[trigger] module@.children[j]).kind),
        decreases module.children@.len() - i,
    {
        assert(module@.children[i as int] == module.children@[i as int]@);
        if !analyze::is_statement(module.children[i].kind) {
            return false;
        }
        i = i + 1;
    }
    true
}

/// The output: text that comes first, and a module to be printed behind it.
pub struct Packed {
    pub text: String,
    pub module: Node,
}

fn external_import(code: String, url: String) -> (r: Node)
    ensures
        r@ == external_import_tree(code@, url@),
{
    let star: Node = make(Kind::ImportNamespace, one(placed(Role::Local, ident(code))));
    make(
        Kind::ImportDecl,
        two(placed(Role::Specifier, star), placed(Role::Source, make_word(Kind::Str, url))),
    )
}

fn object_decl(code: String, names: &Vec<String>) -> (r: Node)
    ensures
        r@ == object_decl_tree(code@, texts(names@)),
{
    let ghost all = undefined_props(texts(names@));
    let mut props: Vec<Node> = Vec::new();
    let mut i: usize = 0;
    assert(trees(props@) =~= all.take(0));
    while i < names.len()
        invariant
            i <= names@.len(),
            all == undefined_props(texts(names@)),
            trees(props@) == all.take(i as int),
        decreases names@.len() - i,
    {
        broadcast use group_trees;

        props.push(
            placed(
                Role::Prop,
                key_value(ident(names[i].clone()), ident_expr("undefined".to_owned())),
            ),
        );
        i = i + 1;
        assert(trees(props@) =~= all.take(i as int));
    }
    assert(trees(props@) =~= all);
    const_var_decl(code, make(Kind::ObjectLit, props))
}

/// The declarations that come first, while they are made.
struct HeaderParts {
    data: ModuleDataCollection,
    items: Vec<Node>,
    text: String,
}

impl HeaderParts {
    spec fn view(&self) -> Header {
        Header { data: self.data@, items: trees(self.items@), text: self.text@ }
    }

    /// Adds the declaration of one module.
    fn add_module(&mut self, module: &GraphModule, root: &ModuleSpecifier, dir: &Option<String>)
        requires
            old(self).data.wf(),
        ensures
            final(self).data.wf(),
            final(self)@ == with_module(
                old(self)@,
                *module,
                root@,
                match dir {
                    Some(dir) => Some(dir@),
                    None => None,
                },
            ),
    {
        broadcast use group_trees;

        let specifier: &ModuleSpecifier = module.specifier();
        if !specifier.is_file() {
            let id: ModuleId = self.data.mention(specifier);
            self.items.push(
                placed(Role::Item, external_import(id.to_code_string(), specifier.text.clone())),
            );
        } else {
            match module {
                GraphModule::Esm(_) => {
                    let names: Vec<String> = self.data.get_export_names(specifier);
                    let id: ModuleId = self.data.mention(specifier);
                    assert(texts(names@).len() == names@.len());
                    if names.len() > 0 && !specifier.same(root) {
                        self.items.push(
                            placed(Role::Item, object_decl(id.to_code_string(), &names)),
                        );
                    }
                },
                GraphModule::Json(json) => {
                    let id: ModuleId = self.data.mention(specifier);
                    let shown: String = displayed_specifier(dir, specifier);
                    let ghost before = self.text@;
                    let mut text: String = "// ".to_owned();
                    text.append(shown.as_str());
                    text.append("\nconst ");
                    text.append(id.to_code_string().as_str());
                    text.append(" = {\n  default: ");
                    text.append(trim(json.source.as_str()).as_str());
                    text.append("\n};\n");
                    self.text.append(text.as_str());
                },
            }
        }
    }
}

proof fn lemma_header_keeps(
    modules: Seq<GraphModule>,
    n: nat,
    files: bool,
    root: Seq<char>,
    h: Header,
    key: Seq<char>,
)
    requires
        has_key(h.data, key),
    ensures
        has_key(header_upto(modules, n, files, root, h).data, key),
    decreases n,
{
    if n > 0 {
        lemma_header_keeps(modules, (n - 1) as nat, files, root, h, key);
        lemma_mentioned(
            header_upto(modules, (n - 1) as nat, files, root, h).data,
            modules[n - 1].url(),
            key,
        );
    }
}

proof fn lemma_analyzed_has(
    modules: Seq<GraphModule>,
    n: nat,
    root: Seq<char>,
    options: PackOptions,
    i: int,
)
    requires
        0 <= i < n <= modules.len(),
        modules[i] is Esm,
        is_packed(modules[i].url(), options),
    ensures
        has_key(analyzed_upto(modules, n, root, options), modules[i].url()),
    decreases n,
{
    let before = analyzed_upto(modules, (n - 1) as nat, root, options);
    if i < n - 1 {
        lemma_analyzed_has(modules, (n - 1) as nat, root, options, i);
    }
    match modules[n - 1] {
        GraphModule::Esm(esm) => {
            law_numbers_are_kept(
                before,
                esm.specifier@,
                dependencies_of(esm.dependencies@),
                esm.module@,
                esm.specifier@ == root,
                modules[i].url(),
            );
        },
        GraphModule::Json(_) => {},
    }
}

/// The specifiers of the files.
fn local_specifiers(modules: &Vec<GraphModule>) -> (r: Vec<ModuleSpecifier>)
    requires
        forall|i: int| 0 <= i < modules@.len() ==> (#[trigger] modules@[i]).wf(),
    ensures
        urls(r@) == files_upto(modules@, modules@.len()),
        all_wf(r@),
{
    let mut r: Vec<ModuleSpecifier> = Vec::new();
    let mut i: usize = 0;
    assert(urls(r@) =~= Seq::<Seq<char>>::empty());
    while i < modules.len()
        invariant
            i <= modules@.len(),
            forall|i: int| 0 <= i < modules@.len() ==> (#[trigger] modules@[i]).wf(),
            urls(r@) == files_upto(modules@, i as nat),
            all_wf(r@),
        decreases modules@.len() - i,
    {
        let specifier: &ModuleSpecifier = modules[i].specifier();
        if specifier.is_file() {
            let ghost before = urls(r@);
            r.push(specifier.dup());
            assert(urls(r@) =~= before.push(specifier@));
        }
        i = i + 1;
    }
    r
}

/// Adds the code of the modules, the last first, of those that are files or of
/// those that are not.
fn add_code(
    modules: &Vec<GraphModule>,
    transpiled: &Vec<Node>,
    files: bool,
    root: &ModuleSpecifier,
    dir: &Option<String>,
    data: &ModuleDataCollection,
    items: &mut Vec<Node>,
)
    requires
        data.wf(),
        modules@.len() == transpiled@.len(),
        graph_root_dir(modules@) == (match dir {
            Some(dir) => Some(dir@),
            None => None,
        }),
        forall|i: int|
            0 <= i < modules@.len() && (#[trigger] modules@[i]) is Esm && is_file_url(
                modules@[i].url(),
            ) == files ==> has_key(data@, modules@[i].url()),
    ensures
        trees(final(items)@) == trees(old(items)@) + code_from(
            modules@,
            trees(transpiled@),
            0,
            files,
            root@,
            data@,
        ),
{
    let ghost before = trees(items@);
    let ghost all = trees(transpiled@);
    let mut n: usize = modules.len();
    assert(trees(items@) =~= before + code_from(modules@, all, n as int, files, root@, data@));
    while n > 0
        invariant
            n <= modules@.len(),
            data.wf(),
            modules@.len() == transpiled@.len(),
            all == trees(transpiled@),
            graph_root_dir(modules@) == (match dir {
                Some(dir) => Some(dir@),
                None => None,
            }),
            forall|i: int|
                0 <= i < modules@.len() && (#[trigger] modules@[i]) is Esm && is_file_url(
                    modules@[i].url(),
                ) == files ==> has_key(data@, modules@[i].url()),
            trees(items@) == before + code_from(modules@, all, n as int, files, root@, data@),
        decreases n,
    {
        broadcast use group_trees;

        n = n - 1;
        let module: &GraphModule = &modules[n];
        assert(all[n as int] == transpiled@[n as int]@);
        if module.specifier().is_file() == files {
            match module {
                GraphModule::Esm(esm) => {
                    assert(modules@[n as int] is Esm);
                    let name: String = to_identifier(
                        displayed_specifier(dir, &esm.specifier).as_str(),
                    );
                    let mut code: Vec<Node> = emit_module(
                        data,
                        &esm.specifier,
                        esm.specifier.same(root),
                        name,
                        crate::syntax::dup_all(&transpiled[n].children),
                    );
                    items.append(&mut code);
                },
                GraphModule::Json(_) => {},
            }
        }
        assert(trees(items@) =~= before + code_from(
            modules@,
            all,
            n as int,
            files,
            root@,
            data@,
        ));
    }
}

/// Packs the modules of a graph into one. `transpiled` holds, for each module
/// whose code goes into the output, its emitted syntax after types were removed
/// from it.
pub fn pack(analysis: Analysis, transpiled: &Vec<Node>) -> (r: Packed)
    requires
        analysis.wf(),
        transpiled@.len() == analysis.modules@.len(),
        forall|i: int|
            0 <= i < transpiled@.len() && analysis.modules@[i] is Esm && is_packed(
                analysis.modules@[i].url(),
                analysis.options,
            ) && analysis.modules@[i].url() != analysis.root@ ==> all_statements(
                (#[trigger] transpiled@[i])@,
            ),
    ensures
        r.text@ == header(analysis.modules@, analysis.root@, analysis.data@).text,
        r.module@ == made(
            Kind::Module,
            packed_items(
                analysis.modules@,
                trees(transpiled@),
                analysis.root@,
                analysis.options,
                analysis.data@,
            ),
        ),
{
    let ghost data = analysis.data@;
    let Analysis { root, options, modules, data: module_data } = analysis;
    assert forall|i: int| 0 <= i < modules@.len() implies (#[trigger] modules@[i]).wf() by {
        assert(module_ok(modules@[i], root@, options));
    }
    let dir: Option<String> = get_root_dir(&local_specifiers(&modules));
    let mut parts = HeaderParts { data: module_data, items: Vec::new(), text: String::new() };
    let ghost start = Header { data, items: Seq::empty(), text: Seq::empty() };
    assert(parts@ == start) by {
        broadcast use group_trees;

    }
    let mut i: usize = 0;
    while i < modules.len()
        invariant
            i <= modules@.len(),
            parts.data.wf(),
            graph_root_dir(modules@) == (match dir {
                Some(dir) => Some(dir@),
                None => None,
            }),
            parts@ == header_upto(modules@, i as nat, false, root@, start),
        decreases modules@.len() - i,
    {
        if !modules[i].specifier().is_file() {
            parts.add_module(&modules[i], &root, &dir);
        }
        i = i + 1;
    }
    let ghost remote = header_upto(modules@, modules@.len(), false, root@, start);
    let mut i: usize = 0;
    while i < modules.len()
        invariant
            i <= modules@.len(),
            parts.data.wf(),
            graph_root_dir(modules@) == (match dir {
                Some(dir) => Some(dir@),
                None => None,
            }),
            parts@ == header_upto(modules@, i as nat, true, root@, remote),
        decreases modules@.len() - i,
    {
        if modules[i].specifier().is_file() {
            parts.add_module(&modules[i], &root, &dir);
        }
        i = i + 1;
    }
    proof {
        assert forall|i: int|
            0 <= i < modules@.len() && (#[trigger] modules@[i]) is Esm && is_packed(
                modules@[i].url(),
                options,
            ) implies has_key(parts.data@, modules@[i].url()) by {
            lemma_analyzed_has(modules@, modules@.len(), root@, options, i);
            lemma_header_keeps(
                modules@,
                modules@.len(),
                false,
                root@,
                start,
                modules@[i].url(),
            );
            lemma_header_keeps(
                modules@,
                modules@.len(),
                true,
                root@,
                remote,
                modules@[i].url(),
            );
        }
    }
    let HeaderParts { data: module_data, items, text } = parts;
    let mut items: Vec<Node> = items;
    let ghost first = trees(items@);
    if options.include_remote {
        add_code(&modules, transpiled, false, &root, &dir, &module_data, &mut items);
    }
    assert(options.include_remote || trees(items@) =~= first + Seq::<Tree>::empty());
    add_code(&modules, transpiled, true, &root, &dir, &module_data, &mut items);
    Packed { text, module: make(Kind::Module, items) }
}

/// What stands in the output for a module before any code: the import of a module
/// on the web, or the object of a file that exports something.
pub open spec fn is_declared(
    module: GraphModule,
    root: Seq<char>,
    data: Seq<(Seq<char>, Data)>,
    items: Seq<Tree>,
) -> bool {
    let url = module.url();
    let code = code_name(key_place(data, url));
    let names = export_names(data, url);
    &&& has_key(data, url)
    &&& !is_file_url(url) ==> items.contains(at(Role::Item, external_import_tree(code, url)))
    &&& is_file_url(url) && module is Esm && url != root && names.len() > 0 ==> items.contains(
        at(Role::Item, object_decl_tree(code, names)),
    )
}

proof fn lemma_stays_declared(
    h: Header,
    module: GraphModule,
    root: Seq<char>,
    dir: Option<Seq<char>>,
    other: GraphModule,
)
    requires
        is_declared(other, root, h.data, h.items),
    ensures
        is_declared(
            other,
            root,
            with_module(h, module, root, dir).data,
            with_module(h, module, root, dir).items,
        ),
{
    let after = with_module(h, module, root, dir);
    lemma_mentioned(h.data, module.url(), other.url());
    data::law_mention_keeps_exports(h.data, module.url(), other.url());
    assert forall|t: Tree| h.items.contains(t) implies after.items.contains(t) by {
        let k = h.items.index_of(t);
        assert(after.items[k] == t);
    }
}

proof fn lemma_header_keeps_declared(
    modules: Seq<GraphModule>,
    n: nat,
    files: bool,
    root: Seq<char>,
    h: Header,
    other: GraphModule,
)
    requires
        is_declared(other, root, h.data, h.items),
    ensures
        ({
            let after = header_upto(modules, n, files, root, h);
            is_declared(other, root, after.data, after.items)
        }),
    decreases n,
{
    if n > 0 {
        lemma_header_keeps_declared(modules, (n - 1) as nat, files, root, h, other);
        lemma_stays_declared(
            header_upto(modules, (n - 1) as nat, files, root, h),
            modules[n - 1],
            root,
            graph_root_dir(modules),
            other,
        );
    }
}

proof fn lemma_header_declares(
    modules: Seq<GraphModule>,
    n: nat,
    files: bool,
    root: Seq<char>,
    h: Header,
    i: int,
)
    requires
        0 <= i < n <= modules.len(),
        is_file_url(modules[i].url()) == files,
    ensures
        ({
            let after = header_upto(modules, n, files, root, h);
            is_declared(modules[i], root, after.data, after.items)
        }),
    decreases n,
{
    let before = header_upto(modules, (n - 1) as nat, files, root, h);
    if i < n - 1 {
        lemma_header_declares(modules, (n - 1) as nat, files, root, h, i);
        lemma_stays_declared(
            before,
            modules[n - 1],
            root,
            graph_root_dir(modules),
            modules[i],
        );
    } else {
        let after = with_module(before, modules[i], root, graph_root_dir(modules));
        lemma_mentioned(before.data, modules[i].url(), modules[i].url());
        data::law_mention_keeps_exports(before.data, modules[i].url(), modules[i].url());
        if after.items.len() > before.items.len() {
            assert(after.items.last() == after.items[after.items.len() - 1]);
        }
    }
}

/// Every module is declared before any code: a module on the web is imported by
/// its URL, and a file other than the root that exports something has an object
/// with a place for each of its exports. Each goes by the name that the module's
/// number gives.
pub proof fn law_every_module_is_declared(
    modules: Seq<GraphModule>,
    root: Seq<char>,
    data: Seq<(Seq<char>, Data)>,
    i: int,
)
    requires
        0 <= i < modules.len(),
    ensures
        is_declared(
            modules[i],
            root,
            header(modules, root, data).data,
            header(modules, root, data).items,
        ),
{
    let start = Header { data, items: Seq::empty(), text: Seq::empty() };
    let remote = header_upto(modules, modules.len(), false, root, start);
    if is_file_url(modules[i].url()) {
        lemma_header_declares(modules, modules.len(), true, root, remote, i);
    } else {
        lemma_header_declares(modules, modules.len(), false, root, start, i);
        lemma_header_keeps_declared(modules, modules.len(), true, root, remote, modules[i]);
    }
}

/// Modules on the web stay external where they are not to be packed: only files
/// have code in the output.
pub proof fn law_remote_modules_stay_external(
    modules: Seq<GraphModule>,
    transpiled: Seq<Tree>,
    other: Seq<Tree>,
    root: Seq<char>,
    options: PackOptions,
    data: Seq<(Seq<char>, Data)>,
)
    requires
        !options.include_remote,
        transpiled.len() == modules.len(),
        other.len() == modules.len(),
        forall|i: int|
            0 <= i < modules.len() && is_file_url((#[trigger] modules[i]).url()) ==> transpiled[i]
                == other[i],
    ensures
        packed_items(modules, transpiled, root, options, data) == packed_items(
            modules,
            other,
            root,
            options,
            data,
        ),
{
    lemma_code_from_files(
        modules,
        transpiled,
        other,
        0,
        root,
        header(modules, root, data).data,
    );
}

proof fn lemma_code_from_files(
    modules: Seq<GraphModule>,
    transpiled: Seq<Tree>,
    other: Seq<Tree>,
    from: int,
    root: Seq<char>,
    data: Seq<(Seq<char>, Data)>,
)
    requires
        0 <= from,
        transpiled.len() == modules.len(),
        other.len() == modules.len(),
        forall|i: int|
            0 <= i < modules.len() && is_file_url((#[trigger] modules[i]).url()) ==> transpiled[i]
                == other[i],
    ensures
        code_from(modules, transpiled, from, true, root, data) == code_from(
            modules,
            other,
            from,
            true,
            root,
            data,
        ),
    decreases modules.len() - from,
{
    if from < modules.len() {
        lemma_code_from_files(modules, transpiled, other, from + 1, root, data);
    }
}

}
