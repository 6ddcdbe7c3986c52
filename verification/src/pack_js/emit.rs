//! The statements that a module becomes in the output.

use vstd::prelude::*;

use super::data::{
    code_name, data_of, declares, export_names, exports_name, passes, passes_all_of, reaches, Data,
    Export, ModuleData, ModuleDataCollection, Passed, PassedOn, ReExport, ReExportName,
};
use crate::collections::{has_key, key_place, TextMap};
use crate::helpers::{
    const_var_decl, const_var_tree, define_property_tree, export_as_tree, export_x_as_y, ident,
    ident_expr, made, make, make_word, member_tree, member_x_y, name_expr_tree, name_tree,
    object_define_property, one, placed, two, word,
};
use crate::specifier::{is_file_url, ModuleSpecifier};
use crate::syntax::{at, group_trees, plain, trees, Flags, Kind, Node, Role, Tree};
use crate::text::{decimal, decimal_text, same_text, texts};

verus! {

/// An export of a module: its name, and the expression that gives its value.
pub struct Property {
    pub name: String,
    pub expr: Node,
}

/// What a [`Property`] stands for.
#[verifier::ext_equal]
pub struct Defined {
    pub name: Seq<char>,
    pub expr: Tree,
}

impl Property {
    pub open spec fn view(&self) -> Defined {
        Defined { name: self.name@, expr: self.expr@ }
    }
}

/// What a sequence of properties stands for.
pub open spec fn defined(s: Seq<Property>) -> Seq<Defined> {
    Seq::new(s.len(), |i: int| s[i]@)
}

broadcast proof fn lemma_defined_push(s: Seq<Property>, p: Property)
    ensures
        #[trigger] defined(s.push(p)) == defined(s).push(p@),
{
    assert(defined(s.push(p)) =~= defined(s).push(p@));
}

/// The first `n` exports of what the module itself declares or imports.
pub open spec fn own_upto(exports: Seq<Export>, n: nat) -> Seq<Defined>
    decreases n,
{
    if n == 0 {
        Seq::empty()
    } else {
        own_upto(exports, (n - 1) as nat).push(
            Defined { name: exports[n - 1].name(), expr: name_expr_tree(exports[n - 1].local) },
        )
    }
}

/// Those of the first `n` exports that do not stay where they stand.
pub open spec fn moved_upto(exports: Seq<Export>, n: nat) -> Seq<Defined>
    decreases n,
{
    if n == 0 {
        Seq::empty()
    } else if exports[n - 1].in_place {
        moved_upto(exports, (n - 1) as nat)
    } else {
        moved_upto(exports, (n - 1) as nat).push(
            Defined { name: exports[n - 1].name(), expr: name_expr_tree(exports[n - 1].local) },
        )
    }
}

/// The named ones of the first `n` exports of other modules.
pub open spec fn named_upto(re_exports: Seq<PassedOn>, n: nat) -> Seq<Defined>
    decreases n,
{
    if n == 0 {
        Seq::empty()
    } else {
        let before = named_upto(re_exports, (n - 1) as nat);
        let code = code_name(re_exports[n - 1].module_id as int);
        match re_exports[n - 1].name {
            Passed::Named(export) => before.push(
                Defined { name: export.name(), expr: member_tree(code, export.local) },
            ),
            Passed::Namespace(name) => before.push(
                Defined { name, expr: name_expr_tree(code) },
            ),
            Passed::All => before,
        }
    }
}

/// What a module exports of others with the first `n` names of another one: those that it
/// does not give itself and does not have of others, but for the default export.
pub open spec fn star_names_upto(
    data: Data,
    before: Seq<Defined>,
    names: Seq<Seq<char>>,
    n: nat,
    id: int,
) -> Seq<Defined>
    decreases n,
{
    if n == 0 {
        before
    } else {
        let so_far = star_names_upto(data, before, names, (n - 1) as nat, id);
        let name = names[n - 1];
        if name == "default"@ || declares(data, name) || has_property(so_far, name) {
            so_far
        } else {
            so_far.push(Defined { name, expr: member_tree(code_name(id), name) })
        }
    }
}

/// What the first `n` exports of other modules bring that are exports of whatever
/// those export.
pub open spec fn stars_upto(s: Seq<(Seq<char>, Data)>, data: Data, n: nat) -> Seq<Defined>
    decreases n,
{
    if n == 0 {
        Seq::empty()
    } else {
        let before = stars_upto(s, data, (n - 1) as nat);
        let re_export = data.re_exports[n - 1];
        if re_export.name is All {
            let names = export_names(s, re_export.specifier);
            star_names_upto(data, before, names, names.len(), re_export.module_id as int)
        } else {
            before
        }
    }
}

/// What a module exports of other modules: first what has a name, then what is
/// exported with everything else.
pub open spec fn passed_on(s: Seq<(Seq<char>, Data)>, data: Data) -> Seq<Defined> {
    named_upto(data.re_exports, data.re_exports.len()) + stars_upto(
        s,
        data,
        data.re_exports.len(),
    )
}

/// Everything that a module exports.
pub open spec fn properties(s: Seq<(Seq<char>, Data)>, data: Data) -> Seq<Defined> {
    own_upto(data.exports, data.exports.len()) + passed_on(s, data)
}

/// What the root exports behind its items: what it imports, and what it has of other
/// modules.
pub open spec fn root_properties(s: Seq<(Seq<char>, Data)>, data: Data) -> Seq<Defined> {
    moved_upto(data.exports, data.exports.len()) + passed_on(s, data)
}

/// The name of the variable for the `i`-th export that the root has of another
/// module.
pub open spec fn temp_name(i: int) -> Seq<char> {
    "_packReExport"@ + decimal((i + 1) as nat)
}

/// The items by which the root exports the first `n`: a constant for each, and
/// its export.
pub open spec fn root_exports_upto(s: Seq<Defined>, n: nat) -> Seq<Tree>
    decreases n,
{
    if n == 0 {
        Seq::empty()
    } else {
        root_exports_upto(s, (n - 1) as nat) + seq![
            at(Role::Item, const_var_tree(temp_name(n - 1), s[n - 1].expr)),
            at(Role::Item, export_as_tree(temp_name(n - 1), s[n - 1].name)),
        ]
    }
}

/// The statements that define the first `n` properties of a module's object.
pub open spec fn definitions_upto(code: Seq<char>, s: Seq<Defined>, n: nat) -> Seq<Tree>
    decreases n,
{
    if n == 0 {
        Seq::empty()
    } else {
        definitions_upto(code, s, (n - 1) as nat).push(
            at(Role::Stmt, define_property_tree(code, s[n - 1].name, s[n - 1].expr)),
        )
    }
}

/// The items with the role of statements.
pub open spec fn as_stmts(s: Seq<Tree>) -> Seq<Tree> {
    Seq::new(s.len(), |i: int| at(Role::Stmt, s[i]))
}

/// A call of a function in which the statements stand:
/// `(function name() { .. })();`, awaited where the function is asynchronous.
pub open spec fn iife_tree(name: Seq<char>, stmts: Seq<Tree>, is_async: bool) -> Tree {
    let function = Tree {
        flags: Flags { is_async, ..plain() },
        ..made(Kind::Function, seq![at(Role::Body, made(Kind::Block, stmts))])
    };
    let fn_expr = made(
        Kind::FnExpr,
        seq![at(Role::Name, name_tree(name)), at(Role::Function, function)],
    );
    let call = made(
        Kind::CallExpr,
        seq![at(Role::Callee, made(Kind::ParenExpr, seq![at(Role::Expr, fn_expr)]))],
    );
    let expr = if is_async {
        made(Kind::AwaitExpr, seq![at(Role::Arg, call)])
    } else {
        call
    };
    made(Kind::ExprStmt, seq![at(Role::Expr, expr)])
}

/// `export * from "<url>";`
pub open spec fn export_all_tree(url: Seq<char>) -> Tree {
    made(Kind::ExportAll, seq![at(Role::Source, word(Kind::Str, url))])
}

/// Whether a module stays on the web: its code is not packed.
pub open spec fn is_external(url: Seq<char>, data: Data) -> bool {
    !is_file_url(url) && data.module is None
}

/// The items by which the root exports whatever those of the first `n` modules export
/// that stay on the web.
pub open spec fn web_exports_upto(s: Seq<(Seq<char>, Data)>, root: Seq<char>, n: nat) -> Seq<Tree>
    decreases n,
{
    if n == 0 {
        Seq::empty()
    } else {
        let before = web_exports_upto(s, root, (n - 1) as nat);
        if s[n - 1].0 != root && is_external(s[n - 1].0, s[n - 1].1) && reaches(
            s,
            root,
            s[n - 1].0,
        ) {
            before.push(at(Role::Item, export_all_tree(s[n - 1].0)))
        } else {
            before
        }
    }
}

/// What a module whose items are `items` becomes in the output: the root stays as
/// it is and exports, any other is put in a function that defines the properties
/// of the module's object.
pub open spec fn module_output(
    s: Seq<(Seq<char>, Data)>,
    url: Seq<char>,
    is_root: bool,
    name: Seq<char>,
    items: Seq<Tree>,
) -> Seq<Tree> {
    let data = data_of(s, url);
    if items.len() == 0 && data.exports.len() == 0 && data.re_exports.len() == 0 {
        Seq::empty()
    } else if is_root {
        items + root_exports_upto(root_properties(s, data), root_properties(s, data).len())
            + web_exports_upto(s, url, s.len())
    } else {
        let code = code_name(key_place(s, url));
        seq![
            at(
                Role::Item,
                iife_tree(
                    name,
                    as_stmts(items) + definitions_upto(
                        code,
                        properties(s, data),
                        properties(s, data).len(),
                    ),
                    data.has_tla,
                ),
            ),
        ]
    }
}

/// Whether the module gives the name to an export.
fn gives_name(data: &ModuleData, name: &str) -> (r: bool)
    ensures
        r == declares(data@, name@),
{
    let mut i: usize = 0;
    while i < data.exports.len()
        invariant
            i <= data.exports@.len(),
            forall|j: int| 0 <= j < i ==> (#[trigger] data@.exports[j]).name() != name@,
        decreases data.exports@.len() - i,
    {
        assert(data@.exports[i as int] == data.exports@[i as int]@);
        if crate::text::same_text(data.exports[i].export_name().as_str(), name) {
            assert(data@.exports[i as int].name() == name@);
            return true;
        }
        i = i + 1;
    }
    let mut i: usize = 0;
    while i < data.re_exports.len()
        invariant
            i <= data.re_exports@.len(),
            forall|j: int| 0 <= j < i ==> !passes(#[trigger] data@.re_exports[j], name@),
            forall|j: int|
                0 <= j < data@.exports.len() ==> (#[trigger] data@.exports[j]).name() != name@,
        decreases data.re_exports@.len() - i,
    {
        assert(data@.re_exports[i as int] == data.re_exports@[i as int]@);
        let found: bool = match &data.re_exports[i].name {
            ReExportName::Named(export) => crate::text::same_text(
                export.export_name().as_str(),
                name,
            ),
            ReExportName::Namespace(namespace) => crate::text::same_text(
                namespace.as_str(),
                name,
            ),
            ReExportName::All => false,
        };
        if found {
            assert(passes(data@.re_exports[i as int], name@));
            return true;
        }
        i = i + 1;
    }
    false
}

/// Whether one of the properties has the name.
fn is_defined(properties: &Vec<Property>, name: &str) -> (r: bool)
    ensures
        r == has_property(defined(properties@), name@),
{
    let mut i: usize = 0;
    while i < properties.len()
        invariant
            i <= properties@.len(),
            forall|j: int| 0 <= j < i ==> (#[trigger] defined(properties@)[j]).name != name@,
        decreases properties@.len() - i,
    {
        assert(defined(properties@)[i as int] == properties@[i as int]@);
        if same_text(properties[i].name.as_str(), name) {
            assert(defined(properties@)[i as int].name == name@);
            return true;
        }
        i = i + 1;
    }
    false
}

/// Adds the items by which the root exports whatever modules export that stay on the
/// web.
fn add_web_exports(modules: &ModuleDataCollection, root: &ModuleSpecifier, r: &mut Vec<Node>)
    requires
        modules.wf(),
    ensures
        trees(final(r)@) == trees(old(r)@) + web_exports_upto(modules@, root@, modules@.len()),
{
    let ghost s = modules@;
    let ghost before = trees(r@);
    let reached: TextMap<()> = modules.get_star_modules(root);
    let mut i: usize = 0;
    assert(trees(r@) =~= before + web_exports_upto(s, root@, 0));
    while i < modules.module_data.len()
        invariant
            modules.wf(),
            s == modules@,
            reached.wf(),
            forall|to: Seq<char>| #[trigger] has_key(reached@, to) <==> reaches(s, root@, to),
            i <= s.len(),
            trees(r@) == before + web_exports_upto(s, root@, i as nat),
        decreases s.len() - i,
    {
        broadcast use group_trees;

        let url = ModuleSpecifier { text: modules.module_data.key_at(i).clone() };
        let data: &ModuleData = modules.module_data.value_at(i);
        assert(s[i as int] == (url@, data@));
        assert(has_key(reached@, url@) <==> reaches(s, root@, url@));
        if !url.same(root) && !url.is_file() && data.module.is_none() && reached.contains_key(
            url.text.as_str(),
        ) {
            let source: Node = make_word(Kind::Str, url.text);
            r.push(
                placed(Role::Item, make(Kind::ExportAll, one(placed(Role::Source, source)))),
            );
        }
        i = i + 1;
        assert(trees(r@) =~= before + web_exports_upto(s, root@, i as nat));
    }
}

/// The exports of what the module itself declares or imports.
fn own_properties(data: &ModuleData) -> (r: Vec<Property>)
    ensures
        defined(r@) == own_upto(data@.exports, data@.exports.len()),
{
    let mut r: Vec<Property> = Vec::new();
    let mut i: usize = 0;
    assert(defined(r@) =~= Seq::<Defined>::empty());
    while i < data.exports.len()
        invariant
            i <= data.exports@.len(),
            defined(r@) == own_upto(data@.exports, i as nat),
        decreases data.exports@.len() - i,
    {
        broadcast use lemma_defined_push;

        let export = &data.exports[i];
        assert(data@.exports[i as int] == export@);
        r.push(
            Property {
                name: export.export_name().clone(),
                expr: ident_expr(export.local_name.clone()),
            },
        );
        i = i + 1;
    }
    r
}

/// The exports that do not stay where they stand.
fn moved_properties(data: &ModuleData) -> (r: Vec<Property>)
    ensures
        defined(r@) == moved_upto(data@.exports, data@.exports.len()),
{
    let mut r: Vec<Property> = Vec::new();
    let mut i: usize = 0;
    assert(defined(r@) =~= Seq::<Defined>::empty());
    while i < data.exports.len()
        invariant
            i <= data.exports@.len(),
            defined(r@) == moved_upto(data@.exports, i as nat),
        decreases data.exports@.len() - i,
    {
        broadcast use lemma_defined_push;

        let export = &data.exports[i];
        assert(data@.exports[i as int] == export@);
        if !export.in_place {
            r.push(
                Property {
                    name: export.export_name().clone(),
                    expr: ident_expr(export.local_name.clone()),
                },
            );
        }
        i = i + 1;
    }
    r
}

/// Adds what the module exports of other modules.
fn add_passed_on(modules: &ModuleDataCollection, data: &ModuleData, r: &mut Vec<Property>)
    requires
        modules.wf(),
    ensures
        defined(final(r)@) == defined(old(r)@) + passed_on(modules@, data@),
{
    let ghost before = defined(r@);
    let ghost re_exports = data@.re_exports;
    let mut i: usize = 0;
    assert(defined(r@) =~= before + named_upto(re_exports, 0));
    while i < data.re_exports.len()
        invariant
            i <= data.re_exports@.len(),
            re_exports == data@.re_exports,
            defined(r@) == before + named_upto(re_exports, i as nat),
        decreases data.re_exports@.len() - i,
    {
        broadcast use lemma_defined_push;

        let re_export: &ReExport = &data.re_exports[i];
        assert(re_exports[i as int] == re_export@);
        match &re_export.name {
            ReExportName::Named(export) => {
                r.push(
                    Property {
                        name: export.export_name().clone(),
                        expr: member_x_y(
                            re_export.module_id.to_code_string(),
                            export.local_name.clone(),
                        ),
                    },
                );
            },
            ReExportName::Namespace(name) => {
                r.push(
                    Property {
                        name: name.clone(),
                        expr: ident_expr(re_export.module_id.to_code_string()),
                    },
                );
            },
            // these come when the names are all known
            ReExportName::All => {},
        }
        i = i + 1;
        assert(defined(r@) =~= before + named_upto(re_exports, i as nat));
    }
    let ghost named = before + named_upto(re_exports, re_exports.len());
    let mut stars: Vec<Property> = Vec::new();
    let mut i: usize = 0;
    assert(defined(stars@) =~= Seq::<Defined>::empty());
    while i < data.re_exports.len()
        invariant
            modules.wf(),
            i <= data.re_exports@.len(),
            re_exports == data@.re_exports,
            defined(stars@) == stars_upto(modules@, data@, i as nat),
        decreases data.re_exports@.len() - i,
    {
        let re_export: &ReExport = &data.re_exports[i];
        assert(re_exports[i as int] == re_export@);
        let ghost earlier = defined(stars@);
        if matches!(re_export.name, ReExportName::All) {
            let names: Vec<String> = modules.get_export_names(&re_export.specifier);
            let ghost all = export_names(modules@, re_export.specifier@);
            let ghost id = re_export.module_id.0 as int;
            let mut j: usize = 0;
            while j < names.len()
                invariant
                    j <= names@.len(),
                    texts(names@) == all,
                    id == re_export.module_id.0,
                    defined(stars@) == star_names_upto(data@, earlier, all, j as nat, id),
                decreases names@.len() - j,
            {
                broadcast use lemma_defined_push;

                let name: &String = &names[j];
                assert(all[j as int] == name@);
                if !same_text(name.as_str(), "default") && !gives_name(data, name.as_str())
                    && !is_defined(&stars, name.as_str()) {
                    stars.push(
                        Property {
                            name: name.clone(),
                            expr: member_x_y(
                                re_export.module_id.to_code_string(),
                                name.clone(),
                            ),
                        },
                    );
                }
                j = j + 1;
            }
        }
        i = i + 1;
    }
    let ghost all = defined(stars@);
    r.append(&mut stars);
    assert(defined(r@) =~= named + all);
    assert(defined(r@) =~= before + passed_on(modules@, data@));
}

/// The name of the variable for an export that the root has of another module.
fn temp_name_text(i: usize) -> (r: String)
    requires
        i < usize::MAX,
    ensures
        r@ == temp_name(i as int),
{
    "_packReExport".to_owned().concat(decimal_text(i + 1).as_str())
}

/// A function with the statements in it, and a call of it.
fn iife(name: String, stmts: Vec<Node>, is_async: bool) -> (r: Node)
    ensures
        r@ == iife_tree(name@, trees(stmts@), is_async),
{
    let mut function: Node = make(
        Kind::Function,
        one(placed(Role::Body, make(Kind::Block, stmts))),
    );
    function.flags.is_async = is_async;
    let fn_expr: Node = make(
        Kind::FnExpr,
        two(placed(Role::Name, ident(name)), placed(Role::Function, function)),
    );
    let paren: Node = make(Kind::ParenExpr, one(placed(Role::Expr, fn_expr)));
    let call: Node = make(Kind::CallExpr, one(placed(Role::Callee, paren)));
    let expr: Node = if is_async {
        make(Kind::AwaitExpr, one(placed(Role::Arg, call)))
    } else {
        call
    };
    make(Kind::ExprStmt, one(placed(Role::Expr, expr)))
}

/// What a module becomes in the output. `items` are its items as they are emitted
/// and transpiled, `name` is the name of the function in which they are put.
pub fn emit_module(
    modules: &ModuleDataCollection,
    specifier: &ModuleSpecifier,
    is_root: bool,
    name: String,
    items: Vec<Node>,
) -> (r: Vec<Node>)
    requires
        modules.wf(),
        has_key(modules@, specifier@),
    ensures
        trees(r@) == module_output(modules@, specifier@, is_root, name@, trees(items@)),
{
    let data: &ModuleData = modules.get(specifier).unwrap();
    if items.len() == 0 && data.exports.len() == 0 && data.re_exports.len() == 0 {
        broadcast use group_trees;

        return Vec::new();
    }
    if is_root {
        let mut properties: Vec<Property> = moved_properties(data);
        add_passed_on(modules, data, &mut properties);
        let ghost all = root_properties(modules@, data@);
        assert(defined(properties@) =~= all);
        let ghost own = trees(items@);
        let mut r: Vec<Node> = items;
        let mut i: usize = 0;
        assert(trees(r@) =~= own + root_exports_upto(all, 0));
        while i < properties.len()
            invariant
                i <= properties@.len(),
                defined(properties@) == all,
                trees(r@) == own + root_exports_upto(all, i as nat),
            decreases properties@.len() - i,
        {
            broadcast use group_trees;

            let property: &Property = &properties[i];
            assert(all[i as int] == property@);
            r.push(
                placed(Role::Item, const_var_decl(temp_name_text(i), property.expr.dup())),
            );
            r.push(placed(Role::Item, export_x_as_y(temp_name_text(i), property.name.clone())));
            i = i + 1;
            assert(trees(r@) =~= own + root_exports_upto(all, i as nat));
        }
        add_web_exports(modules, specifier, &mut r);
        r
    } else {
        let mut properties: Vec<Property> = own_properties(data);
        add_passed_on(modules, data, &mut properties);
        let ghost all = crate::pack_js::emit::properties(modules@, data@);
        assert(defined(properties@) =~= all);
        let code: String = data.id.to_code_string();
        let ghost own = as_stmts(trees(items@));
        let mut stmts: Vec<Node> = Vec::new();
        let mut i: usize = 0;
        while i < items.len()
            invariant
                i <= items@.len(),
                own == as_stmts(trees(items@)),
                trees(stmts@) == own.take(i as int),
            decreases items@.len() - i,
        {
            broadcast use group_trees;

            stmts.push(items[i].dup_at(Role::Stmt));
            i = i + 1;
            assert(trees(stmts@) =~= own.take(i as int));
        }
        let mut i: usize = 0;
        assert(trees(stmts@) =~= own + definitions_upto(code@, all, 0));
        while i < properties.len()
            invariant
                i <= properties@.len(),
                defined(properties@) == all,
                trees(stmts@) == own + definitions_upto(code@, all, i as nat),
            decreases properties@.len() - i,
        {
            broadcast use group_trees;

            let property: &Property = &properties[i];
            assert(all[i as int] == property@);
            stmts.push(
                placed(
                    Role::Stmt,
                    object_define_property(
                        code.clone(),
                        property.name.clone(),
                        property.expr.dup(),
                    ),
                ),
            );
            i = i + 1;
            assert(trees(stmts@) =~= own + definitions_upto(code@, all, i as nat));
        }
        one(placed(Role::Item, iife(name, stmts, data.has_tla)))
    }
}

/// Whether one of the properties has the name.
pub open spec fn has_property(s: Seq<Defined>, name: Seq<char>) -> bool {
    exists|i: int| 0 <= i < s.len() && (#[trigger] s[i]).name == name
}

pub proof fn lemma_has_property_add(a: Seq<Defined>, b: Seq<Defined>, name: Seq<char>)
    ensures
        has_property(a + b, name) <==> has_property(a, name) || has_property(b, name),
{
    if has_property(a, name) {
        let i = choose|i: int| 0 <= i < a.len() && (#[trigger] a[i]).name == name;
        assert((a + b)[i].name == name);
    }
    if has_property(b, name) {
        let i = choose|i: int| 0 <= i < b.len() && (#[trigger] b[i]).name == name;
        assert((a + b)[a.len() + i].name == name);
    }
    if has_property(a + b, name) {
        let i = choose|i: int| 0 <= i < (a + b).len() && (#[trigger] (a + b)[i]).name == name;
        if i < a.len() {
            assert(a[i].name == name);
        } else {
            assert(b[i - a.len()].name == name);
        }
    }
}

pub proof fn lemma_has_property_push(a: Seq<Defined>, d: Defined, name: Seq<char>)
    ensures
        has_property(a.push(d), name) <==> has_property(a, name) || d.name == name,
{
    assert(a.push(d) =~= a + seq![d]);
    lemma_has_property_add(a, seq![d], name);
    assert(seq![d][0] == d);
}

pub proof fn lemma_own_upto(exports: Seq<Export>, n: nat, name: Seq<char>)
    requires
        n <= exports.len(),
    ensures
        has_property(own_upto(exports, n), name) <==> exists|i: int|
            0 <= i < n && (#[trigger] exports[i]).name() == name,
    decreases n,
{
    if n > 0 {
        lemma_own_upto(exports, (n - 1) as nat, name);
        lemma_has_property_push(
            own_upto(exports, (n - 1) as nat),
            Defined { name: exports[n - 1].name(), expr: name_expr_tree(exports[n - 1].local) },
            name,
        );
        assert(exports[n - 1].name() == name || exports[n - 1].name() != name);
    }
}

proof fn lemma_named_upto(re_exports: Seq<PassedOn>, n: nat, name: Seq<char>)
    requires
        n <= re_exports.len(),
    ensures
        has_property(named_upto(re_exports, n), name) <==> exists|i: int|
            0 <= i < n && passes(#[trigger] re_exports[i], name),
    decreases n,
{
    if n > 0 {
        let m = (n - 1) as nat;
        lemma_named_upto(re_exports, m, name);
        let code = code_name(re_exports[n - 1].module_id as int);
        match re_exports[n - 1].name {
            Passed::Named(export) => {
                lemma_has_property_push(
                    named_upto(re_exports, m),
                    Defined { name: export.name(), expr: member_tree(code, export.local) },
                    name,
                );
            },
            Passed::Namespace(namespace) => {
                lemma_has_property_push(
                    named_upto(re_exports, m),
                    Defined { name: namespace, expr: name_expr_tree(code) },
                    name,
                );
            },
            Passed::All => {},
        }
        assert(passes(re_exports[n - 1], name) || !passes(re_exports[n - 1], name));
    }
}

proof fn lemma_star_names_upto(
    data: Data,
    before: Seq<Defined>,
    names: Seq<Seq<char>>,
    n: nat,
    id: int,
    name: Seq<char>,
)
    requires
        n <= names.len(),
    ensures
        has_property(star_names_upto(data, before, names, n, id), name) <==> has_property(
            before,
            name,
        ) || name != "default"@ && !declares(data, name) && names.take(n as int).contains(name),
    decreases n,
{
    if n > 0 {
        let m = (n - 1) as nat;
        lemma_star_names_upto(data, before, names, m, id, name);
        let last = names[n - 1];
        assert(names.take(n as int) =~= names.take(m as int).push(last));
        assert(names.take(n as int).contains(name) <==> names.take(m as int).contains(name) || name
            == last) by {
            if names.take(m as int).contains(name) {
                let k = names.take(m as int).index_of(name);
                assert(names.take(n as int)[k] == name);
            }
            assert(names.take(n as int)[n - 1] == last);
        }
        lemma_has_property_push(
            star_names_upto(data, before, names, m, id),
            Defined { name: last, expr: member_tree(code_name(id), last) },
            name,
        );
    }
}

pub proof fn lemma_stars_upto(s: Seq<(Seq<char>, Data)>, data: Data, n: nat, name: Seq<char>)
    requires
        n <= data.re_exports.len(),
    ensures
        has_property(stars_upto(s, data, n), name) <==> name != "default"@ && !declares(data, name)
            && exists|i: int|
            0 <= i < n && (#[trigger] data.re_exports[i]).name is All && exports_name(
                s,
                data.re_exports[i].specifier,
                name,
            ),
    decreases n,
{
    if n > 0 {
        let m = (n - 1) as nat;
        lemma_stars_upto(s, data, m, name);
        let re_export = data.re_exports[n - 1];
        if re_export.name is All {
            let names = export_names(s, re_export.specifier);
            super::data::lemma_export_names(s, re_export.specifier);
            lemma_star_names_upto(
                data,
                stars_upto(s, data, m),
                names,
                names.len(),
                re_export.module_id as int,
                name,
            );
            assert(names.take(names.len() as int) =~= names);
            assert(names.contains(name) <==> exports_name(s, re_export.specifier, name));
        }
        assert(data.re_exports[n - 1].name is All || !(data.re_exports[n - 1].name is All));
    }
}

/// Whether no name stands twice among the properties.
pub open spec fn names_once(s: Seq<Defined>) -> bool {
    forall|i: int, j: int|
        0 <= i < j < s.len() ==> (#[trigger] s[i]).name != (#[trigger] s[j]).name
}

proof fn lemma_star_names_once(
    data: Data,
    before: Seq<Defined>,
    names: Seq<Seq<char>>,
    n: nat,
    id: int,
)
    requires
        names_once(before),
    ensures
        names_once(star_names_upto(data, before, names, n, id)),
    decreases n,
{
    if n > 0 {
        lemma_star_names_once(data, before, names, (n - 1) as nat, id);
        let so_far = star_names_upto(data, before, names, (n - 1) as nat, id);
        let after = star_names_upto(data, before, names, n, id);
        assert forall|i: int, j: int| 0 <= i < j < after.len() implies (#[trigger] after[i]).name
            != (#[trigger] after[j]).name by {
            assert(after[i] == so_far[i]);
            if j < so_far.len() {
                assert(after[j] == so_far[j]);
            }
        }
    }
}

/// What a module exports with everything of other modules it exports once under each
/// name, and under none that it gives itself, nor as its default export.
pub proof fn law_exports_of_everything_are_new(
    s: Seq<(Seq<char>, Data)>,
    data: Data,
    n: nat,
    i: int,
)
    requires
        n <= data.re_exports.len(),
        0 <= i < stars_upto(s, data, n).len(),
    ensures
        names_once(stars_upto(s, data, n)),
        !declares(data, stars_upto(s, data, n)[i].name),
        stars_upto(s, data, n)[i].name != "default"@,
{
    let all = stars_upto(s, data, n);
    lemma_stars_once(s, data, n);
    lemma_stars_upto(s, data, n, all[i].name);
    assert(has_property(all, all[i].name));
}

proof fn lemma_stars_once(s: Seq<(Seq<char>, Data)>, data: Data, n: nat)
    requires
        n <= data.re_exports.len(),
    ensures
        names_once(stars_upto(s, data, n)),
    decreases n,
{
    if n > 0 {
        let m = (n - 1) as nat;
        lemma_stars_once(s, data, m);
        let re_export = data.re_exports[n - 1];
        let names = export_names(s, re_export.specifier);
        lemma_star_names_once(
            data,
            stars_upto(s, data, m),
            names,
            names.len(),
            re_export.module_id as int,
        );
    }
}

/// The properties that a module's statements define are those for which its
/// object has a place: just the names that the module exports.
pub proof fn law_every_export_is_defined(
    s: Seq<(Seq<char>, Data)>,
    specifier: Seq<char>,
    name: Seq<char>,
)
    requires
        has_key(s, specifier),
    ensures
        has_property(properties(s, data_of(s, specifier)), name) <==> export_names(
            s,
            specifier,
        ).contains(name),
{
    let data = data_of(s, specifier);
    let n = data.re_exports.len();
    lemma_own_upto(data.exports, data.exports.len(), name);
    lemma_named_upto(data.re_exports, n, name);
    lemma_stars_upto(s, data, n, name);
    lemma_has_property_add(named_upto(data.re_exports, n), stars_upto(s, data, n), name);
    lemma_has_property_add(
        own_upto(data.exports, data.exports.len()),
        passed_on(s, data),
        name,
    );
    super::data::law_export_names(s, specifier, name);
    super::data::lemma_export_names(s, specifier);
    assert(export_names(s, specifier).contains(name) <==> exports_name(s, specifier, name));
    if exists|to: Seq<char>| #[trigger] passes_all_of(data, to) && exports_name(s, to, name) {
        let to = choose|to: Seq<char>| #[trigger]
            passes_all_of(data, to) && exports_name(s, to, name);
        let i = choose|i: int|
            0 <= i < data.re_exports.len() && (#[trigger] data.re_exports[i]).name is All
                && data.re_exports[i].specifier == to;
        assert(data.re_exports[i].name is All);
    }
    if exists|i: int|
        0 <= i < n && (#[trigger] data.re_exports[i]).name is All && exports_name(
            s,
            data.re_exports[i].specifier,
            name,
        ) {
        let i = choose|i: int|
            0 <= i < n && (#[trigger] data.re_exports[i]).name is All && exports_name(
                s,
                data.re_exports[i].specifier,
                name,
            );
        assert(passes_all_of(data, data.re_exports[i].specifier));
    }
}

/// A module without exports of others has none.
pub proof fn lemma_nothing_passed(s: Seq<(Seq<char>, Data)>, data: Data)
    requires
        data.re_exports.len() == 0,
    ensures
        passed_on(s, data).len() == 0,
{
}

}
