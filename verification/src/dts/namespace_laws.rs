//! What stands in the namespace of a module for what it imports.

use vstd::prelude::*;

use super::namespaces::{
    declared_items, default_namespace, import_alias, import_parts_upto, imports_upto,
    remote_imports, traced_upto, DtsSymbols, ImportedExports, Referrer, TracedReExport,
};
use super::transform::{export_name_text, Env};
use crate::collections::{key_place, lemma_key_place};
use crate::specifier::is_file_url;
use crate::syntax::{at, child, has_part, id_of, Kind, Role, Tree};
use crate::text::decimal;

verus! {

/// Whether an item lets a name stand for something: `import <name> = <left>.<right>;`, or
/// `import <name> = <left>;`
pub open spec fn is_alias(
    t: Tree,
    name: Seq<char>,
    left: Seq<char>,
    right: Option<Seq<char>>,
) -> bool {
    let entity = t.children[1];
    &&& t.role == Role::Item && t.kind == Kind::TsImportEquals && t.children.len() == 2
    &&& t.children[0].role == Role::Name && t.children[0].text == name
    &&& entity.role == Role::ModuleRef
    &&& match right {
        None => entity.kind == Kind::EntityName && entity.text == left && entity.children.len()
            == 0,
        Some(right) => {
            &&& entity.kind == Kind::TsQualifiedName && entity.children.len() == 2
            &&& entity.children[0].role == Role::Left && entity.children[0].kind
                == Kind::EntityName
            &&& entity.children[0].text == left
            &&& entity.children[1].role == Role::Right && entity.children[1].text == right
        },
    }
}

/// Whether one of the items does.
pub open spec fn has_alias(
    s: Seq<Tree>,
    name: Seq<char>,
    left: Seq<char>,
    right: Option<Seq<char>>,
) -> bool {
    exists|i: int| 0 <= i < s.len() && is_alias(#[trigger] s[i], name, left, right)
}

/// Whether a module's name for another resolves to the one with the number.
pub open spec fn is_source(
    sources: Seq<(Seq<char>, (Option<usize>, bool))>,
    text: Seq<char>,
    id: usize,
    is_remote: bool,
) -> bool {
    exists|i: int|
        {
            &&& 0 <= i < sources.len()
            &&& #[trigger] sources[i] == (text, (Some(id), is_remote))
            &&& forall|j: int| 0 <= j < i ==> (#[trigger] sources[j]).0 != text
        }
}

/// The namespace of the module with the number.
pub open spec fn pack_of(id: usize) -> Seq<char> {
    "pack"@ + decimal(id as nat)
}

/// The namespace that holds the default export of the module with the number: its own, or
/// one for that alone where it is on the web.
pub open spec fn default_pack_of(id: usize, is_remote: bool) -> Seq<char> {
    if is_remote {
        "pack"@ + decimal(id as nat) + "Default"@
    } else {
        "pack"@ + decimal(id as nat)
    }
}

/// Whether the items let the name that a part of an import brings stand for what it
/// imports: an export in the namespace of the other module, the default export there, or
/// the namespace itself.
pub open spec fn is_linked(s: Seq<Tree>, part: Tree, id: usize, is_remote: bool) -> bool {
    let local = child(part, Role::Local).text;
    let name = if has_part(part, Role::Imported) {
        child(part, Role::Imported).text
    } else {
        local
    };
    &&& part.kind == Kind::ImportNamespace ==> has_alias(s, local, pack_of(id), None)
    &&& part.kind == Kind::ImportDefault || part.kind == Kind::ImportNamed && name == "default"@
        ==> has_alias(s, local, default_pack_of(id, is_remote), Some("__default"@))
    &&& part.kind == Kind::ImportNamed && name != "default"@ ==> has_alias(
        s,
        local,
        pack_of(id),
        Some(name),
    )
}

proof fn lemma_alias_kept(
    s: Seq<Tree>,
    more: Seq<Tree>,
    name: Seq<char>,
    left: Seq<char>,
    right: Option<Seq<char>>,
)
    ensures
        has_alias(s, name, left, right) || has_alias(more, name, left, right) ==> has_alias(
            s + more,
            name,
            left,
            right,
        ),
{
    let all = s + more;
    if has_alias(s, name, left, right) {
        let i = choose|i: int| 0 <= i < s.len() && is_alias(#[trigger] s[i], name, left, right);
        assert(all[i] == s[i]);
    }
    if has_alias(more, name, left, right) {
        let i = choose|i: int|
            0 <= i < more.len() && is_alias(#[trigger] more[i], name, left, right);
        assert(all[s.len() + i] == more[i]);
    }
}

proof fn lemma_linked_kept(s: Seq<Tree>, more: Seq<Tree>, part: Tree, id: usize, is_remote: bool)
    requires
        is_linked(s, part, id, is_remote) || is_linked(more, part, id, is_remote),
    ensures
        is_linked(s + more, part, id, is_remote),
{
    let local = child(part, Role::Local).text;
    let name = if has_part(part, Role::Imported) {
        child(part, Role::Imported).text
    } else {
        local
    };
    lemma_alias_kept(s, more, local, pack_of(id), None);
    lemma_alias_kept(s, more, local, default_pack_of(id, is_remote), Some("__default"@));
    lemma_alias_kept(s, more, local, pack_of(id), Some(name));
}

proof fn lemma_part_linked(
    s: Seq<Tree>,
    n: nat,
    public_ids: Set<(Seq<char>, u32)>,
    id: usize,
    is_remote: bool,
    j: int,
)
    requires
        0 <= j < n <= s.len(),
        has_part(s[j], Role::Local),
        public_ids.contains(id_of(child(s[j], Role::Local))),
    ensures
        is_linked(
            import_parts_upto(s, n, public_ids, id as int, is_remote),
            s[j],
            id,
            is_remote,
        ),
    decreases n,
{
    let before = import_parts_upto(s, (n - 1) as nat, public_ids, id as int, is_remote);
    let after = import_parts_upto(s, n, public_ids, id as int, is_remote);
    let part = s[j];
    if j < n - 1 {
        lemma_part_linked(s, (n - 1) as nat, public_ids, id, is_remote, j);
        let more = after.skip(before.len() as int);
        assert(after =~= before + more);
        lemma_linked_kept(before, more, part, id, is_remote);
    } else if part.kind == Kind::ImportNamed || part.kind == Kind::ImportDefault || part.kind
        == Kind::ImportNamespace {
        let t = import_alias(part, id as int, is_remote).unwrap();
        let item = at(Role::Item, t);
        assert(after == before.push(item));
        let one = seq![item];
        assert(one[0] == item);
        assert(before.push(item) =~= before + one);
        let local = child(part, Role::Local).text;
        let name = if has_part(part, Role::Imported) {
            child(part, Role::Imported).text
        } else {
            local
        };
        assert(item.children[0].text == local);
        if part.kind == Kind::ImportNamespace {
            assert(is_alias(item, local, pack_of(id), None));
        } else if part.kind == Kind::ImportDefault || name == "default"@ {
            assert(is_alias(item, local, default_pack_of(id, is_remote), Some("__default"@)));
        } else {
            assert(is_alias(item, local, pack_of(id), Some(name)));
        }
        assert(is_linked(one, part, id, is_remote));
        lemma_linked_kept(before, one, part, id, is_remote);
    }
}

/// Whatever a module imports that is part of the public API has its name in the module's
/// namespace: it stands for the export of the other module's namespace, under the name
/// that it has there.
pub proof fn law_imports_are_linked(
    items: Seq<Tree>,
    n: nat,
    env: Env,
    public_ids: Set<(Seq<char>, u32)>,
    i: int,
    j: int,
    id: usize,
    is_remote: bool,
)
    requires
        0 <= i < n <= items.len(),
        items[i].kind == Kind::ImportDecl,
        has_part(items[i], Role::Source),
        is_source(env.sources, child(items[i], Role::Source).text, id, is_remote),
        0 <= j < items[i].children.len(),
        has_part(items[i].children[j], Role::Local),
        public_ids.contains(id_of(child(items[i].children[j], Role::Local))),
    ensures
        is_linked(imports_upto(items, n, env, public_ids), items[i].children[j], id, is_remote),
    decreases n,
{
    let before = imports_upto(items, (n - 1) as nat, env, public_ids);
    let after = imports_upto(items, n, env, public_ids);
    let t = items[n - 1];
    if i < n - 1 {
        law_imports_are_linked(
            items,
            (n - 1) as nat,
            env,
            public_ids,
            i,
            j,
            id,
            is_remote,
        );
        let more = after.skip(before.len() as int);
        assert(after =~= before + more);
        lemma_linked_kept(before, more, items[i].children[j], id, is_remote);
    } else {
        let text = child(t, Role::Source).text;
        lemma_key_place(env.sources, text);
        let k = choose|k: int|
            {
                &&& 0 <= k < env.sources.len()
                &&& #[trigger] env.sources[k] == (text, (Some(id), is_remote))
                &&& forall|l: int| 0 <= l < k ==> (#[trigger] env.sources[l]).0 != text
            };
        assert(key_place(env.sources, text) == k);
        let more = import_parts_upto(
            t.children,
            t.children.len(),
            public_ids,
            id as int,
            is_remote,
        );
        lemma_part_linked(t.children, t.children.len(), public_ids, id, is_remote, j);
        lemma_linked_kept(before, more, t.children[j], id, is_remote);
    }
}

/// Whether an item exports a name under another.
pub open spec fn is_export_as(t: Tree, name: Seq<char>, exported: Seq<char>) -> bool {
    let part = t.children[0];
    &&& t.role == Role::Item && t.kind == Kind::ExportNamed && t.children.len() == 1
    &&& part.role == Role::Specifier && part.kind == Kind::ExportNamedSpecifier
    &&& part.children.len() == 2
    &&& part.children[0].role == Role::Orig && part.children[0].text == name
    &&& part.children[1].role == Role::Exported && part.children[1].text == exported
}

/// Each export that a module has of another is linked to the other's namespace under a
/// name of its own, and exported by that from there.
pub proof fn law_traced_exports_are_linked(s: Seq<TracedReExport>, n: nat, i: int)
    requires
        0 <= i < n <= s.len(),
    ensures
        traced_upto(s, n).len() == 2 * n,
        is_alias(
            traced_upto(s, n)[2 * i],
            export_name_text((i + 1) as nat),
            pack_of(s[i].module_id.0),
            Some(s[i].name@),
        ),
        is_export_as(
            traced_upto(s, n)[2 * i + 1],
            export_name_text((i + 1) as nat),
            s[i].name@,
        ),
    decreases n,
{
    lemma_traced_len(s, n);
    lemma_traced_len(s, (n - 1) as nat);
    let before = traced_upto(s, (n - 1) as nat);
    let after = traced_upto(s, n);
    if i < n - 1 {
        law_traced_exports_are_linked(s, (n - 1) as nat, i);
        assert(after[2 * i] == before[2 * i]);
        assert(after[2 * i + 1] == before[2 * i + 1]);
    }
}

proof fn lemma_traced_len(s: Seq<TracedReExport>, n: nat)
    ensures
        traced_upto(s, n).len() == 2 * n,
    decreases n,
{
    if n > 0 {
        lemma_traced_len(s, (n - 1) as nat);
    }
}

/// What the root declares itself is declared as such at the top level of the file, and its
/// items stay in their order.
pub proof fn law_the_root_declares_its_items(items: Seq<Tree>, i: int)
    requires
        0 <= i < items.len(),
    ensures
        ({
            let t = items[i];
            let m = declared_items(items)[i];
            &&& declared_items(items).len() == items.len()
            &&& m.kind == t.kind && m.role == t.role && m.children == t.children && m.span
                == t.span && m.text == t.text
            &&& t.kind == Kind::ClassDecl || t.kind == Kind::FnDecl || t.kind == Kind::VarDecl
                || t.kind == Kind::TsModuleDecl ==> m.flags.declare
            &&& t.kind == Kind::ExportDecl ==> m == t
        }),
{
}

/// Whether a file imports the default export of a module.
pub open spec fn file_imports_default(r: Referrer) -> bool {
    &&& r.specifier is Some && is_file_url(r.specifier.unwrap()@)
    &&& match r.imported {
        ImportedExports::AllWithDefault => true,
        ImportedExports::Star => false,
        ImportedExports::Named(names) => exists|k: int|
            0 <= k < names@.len() && (#[trigger] names@[k])@ == "default"@,
    }
}

/// Whether a file imports something else of a module.
pub open spec fn file_imports_others(r: Referrer) -> bool {
    &&& r.specifier is Some && is_file_url(r.specifier.unwrap()@)
    &&& match r.imported {
        ImportedExports::AllWithDefault => true,
        ImportedExports::Star => true,
        ImportedExports::Named(names) => exists|k: int|
            0 <= k < names@.len() && (#[trigger] names@[k])@ != "default"@,
    }
}

/// Whether an item imports the default export of the module at a URL under a name.
pub open spec fn imports_default_as(t: Tree, name: Seq<char>, url: Seq<char>) -> bool {
    let part = t.children[0];
    &&& t.role == Role::Item && t.kind == Kind::ImportDecl && t.children.len() == 2
    &&& part.role == Role::Specifier && part.kind == Kind::ImportNamed && part.children.len() == 2
    &&& part.children[0].role == Role::Local && part.children[0].text == name
    &&& part.children[1].role == Role::Imported && part.children[1].text == "default"@
    &&& t.children[1].role == Role::Source && t.children[1].text == url
}

/// Whether an item imports everything of the module at a URL under a name.
pub open spec fn imports_star_as(t: Tree, name: Seq<char>, url: Seq<char>) -> bool {
    let part = t.children[0];
    &&& t.role == Role::Item && t.kind == Kind::ImportDecl && t.children.len() == 2
    &&& part.role == Role::Specifier && part.kind == Kind::ImportNamespace
    &&& part.children.len() == 1 && part.children[0].role == Role::Local
    &&& part.children[0].text == name
    &&& t.children[1].role == Role::Source && t.children[1].text == url
}

/// What files import of a module on the web is imported by the declaration file: the
/// default export under a name of its own, which a namespace exports, and everything else
/// under the name of the module's namespace.
pub proof fn law_modules_on_the_web_are_imported(url: Seq<char>, symbols: DtsSymbols, i: int)
    requires
        0 <= i < symbols.referrers@.len(),
    ensures
        ({
            let id = symbols.module_id.0;
            let items = remote_imports(url, symbols);
            let local = "pack"@ + decimal(id as nat) + "DefaultImport"@;
            &&& file_imports_default(symbols.referrers@[i]) ==> (exists|k: int|
                0 <= k < items.len() && imports_default_as(#[trigger] items[k], local, url))
                && default_namespace(symbols).len() == 1 && exports_default_of(
                default_namespace(symbols)[0],
                default_pack_of(id, true),
                local,
            )
            &&& file_imports_others(symbols.referrers@[i]) ==> exists|k: int|
                0 <= k < items.len() && imports_star_as(#[trigger] items[k], pack_of(id), url)
        }),
{
    let id = symbols.module_id.0;
    let items = remote_imports(url, symbols);
    let local = "pack"@ + decimal(id as nat) + "DefaultImport"@;
    let r = symbols.referrers@[i];
    if file_imports_default(r) {
        match r.imported {
            ImportedExports::Named(names) => {
                let k = choose|k: int|
                    0 <= k < names@.len() && (#[trigger] names@[k])@ == "default"@;
                assert(crate::text::texts(names@)[k] == "default"@);
            },
            _ => {},
        }
        assert(imports_default_as(items[0], local, url));
        reveal_with_fuel(crate::syntax::place_from, 3);
        let t = default_namespace(symbols)[0];
        let body = child(t, Role::Body);
        assert(body.children.len() == 1);
        assert(is_export_as(body.children[0], local, "__default"@));
    }
    if file_imports_others(r) {
        assert(imports_star_as(items[items.len() - 1], pack_of(id), url));
    }
}

/// Whether a namespace with the name exports what another name stands for as `__default`.
pub open spec fn exports_default_of(t: Tree, name: Seq<char>, local: Seq<char>) -> bool {
    &&& t.kind == Kind::TsModuleDecl && has_part(t, Role::Name) && child(t, Role::Name).text
        == name
    &&& has_part(t, Role::Body) && child(t, Role::Body).children.len() == 1
    &&& is_export_as(child(t, Role::Body).children[0], local, "__default"@)
}

}
