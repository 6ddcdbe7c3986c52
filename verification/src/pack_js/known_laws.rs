//! What is known of a module after it was analyzed, and what its JSON is declared as.

use vstd::prelude::*;

use super::analyze::{
    analyzed, imports_upto, is_from_other, item_added, item_exports, item_re_exports, items_added,
    module_supported, resolved, source_text, top_level_await,
};
use super::data::{
    code_name, data_of, export_names, exports_name, lemma_mentioned, lemma_with_data, mentioned,
    with_data, Data, Passed, PassedOn,
};
use super::export_laws::{
    is_passed, is_recorded, law_exports_are_what_the_items_say,
    law_passed_exports_are_what_the_item_says, same_passed, says_export, says_passed,
};
use super::item_laws::{awaits_at, is_const_of, law_awaiting_is_seen_at_any_depth};
use super::laws::{is_blank, lemma_analyzed};
use super::rewrite_laws::{is_dependency, law_only_imports_are_replaced};
use super::transform::{all_have_parts, emitted};
use super::{
    external_import_tree, header, header_upto, law_every_module_is_declared, object_decl_tree,
    GraphModule, Header,
};
use crate::collections::{has_key, key_place, lemma_key_place};
use crate::specifier::{displayed, is_file_url};
use crate::syntax::{at, child, has_part, Kind, Role, Tree};
use crate::text::{trimmed, white};

verus! {

proof fn lemma_have_parts(
    items: Seq<Tree>,
    deps: Seq<(Seq<char>, Seq<char>)>,
    modules: Seq<(Seq<char>, Data)>,
    is_root: bool,
)
    requires
        module_supported(items, deps, is_root),
    ensures
        all_have_parts(imports_upto(items, items.len(), deps, modules).ids),
{
    let r = imports_upto(items, items.len(), deps, modules);
    assert forall|k: int| 0 <= k < r.ids.len() implies (#[trigger] r.ids[k]).parts.len() > 0 by {
        law_only_imports_are_replaced(items, items.len(), deps, modules, is_root, k);
    }
}

/// Whether a module is known under a number.
pub open spec fn is_numbered(s: Seq<(Seq<char>, Data)>, url: Seq<char>, id: usize) -> bool {
    exists|p: int| 0 <= p < s.len() && (#[trigger] s[p]).0 == url && p as usize == id
}

/// Whether it is known that a module exports something of another, which its item names.
pub open spec fn is_passed_of(
    s: Seq<(Seq<char>, Data)>,
    specifier: Seq<char>,
    name: Passed,
    url: Seq<char>,
) -> bool {
    exists|id: usize|
        #![trigger is_numbered(s, url, id)]
        is_numbered(s, url, id) && is_passed(data_of(s, specifier).re_exports, name, url, id)
}

proof fn lemma_passed_grows(
    a: Seq<PassedOn>,
    b: Seq<PassedOn>,
    name: Passed,
    url: Seq<char>,
    id: usize,
)
    ensures
        is_passed(a, name, url, id) || is_passed(b, name, url, id) ==> is_passed(
            a + b,
            name,
            url,
            id,
        ),
{
    let all = a + b;
    if is_passed(a, name, url, id) {
        let k = choose|k: int|
            0 <= k < a.len() && same_passed((#[trigger] a[k]).name, name) && a[k].specifier == url
                && a[k].module_id == id;
        assert(all[k] == a[k]);
    }
    if is_passed(b, name, url, id) {
        let k = choose|k: int|
            0 <= k < b.len() && same_passed((#[trigger] b[k]).name, name) && b[k].specifier == url
                && b[k].module_id == id;
        assert(all[a.len() + k] == b[k]);
    }
}

proof fn lemma_numbered_kept(
    a: Seq<(Seq<char>, Data)>,
    b: Seq<(Seq<char>, Data)>,
    url: Seq<char>,
    id: usize,
)
    requires
        is_numbered(a, url, id),
        a.len() <= b.len(),
        forall|p: int| 0 <= p < a.len() ==> (#[trigger] a[p]).0 == b[p].0,
    ensures
        is_numbered(b, url, id),
{
    let p = choose|p: int| 0 <= p < a.len() && (#[trigger] a[p]).0 == url && p as usize == id;
    assert(b[p].0 == url);
}

proof fn lemma_dependency(deps: Seq<(Seq<char>, Seq<char>)>, text: Seq<char>, url: Seq<char>)
    requires
        is_dependency(deps, text, url),
    ensures
        resolved(deps, text) == url,
{
    lemma_key_place(deps, text);
    let i = choose|i: int|
        {
            &&& 0 <= i < deps.len()
            &&& #[trigger] deps[i] == (text, url)
            &&& forall|j: int| 0 <= j < i ==> (#[trigger] deps[j]).0 != text
        };
    let p = key_place(deps, text);
    if p < i {
        assert(deps[p].0 != text);
    }
    assert(p == i);
}

/// What an item adds to what is known of its module.
proof fn lemma_item(
    t: Tree,
    specifier: Seq<char>,
    deps: Seq<(Seq<char>, Seq<char>)>,
    ids: Seq<super::transform::Replaced>,
    is_root: bool,
    modules: Seq<(Seq<char>, Data)>,
)
    requires
        has_key(modules, specifier),
    ensures
        ({
            let after = item_added(t, specifier, deps, ids, is_root, modules);
            let old_data = data_of(modules, specifier);
            let dep = resolved(deps, source_text(t));
            let data = data_of(after, specifier);
            &&& has_key(after, specifier)
            &&& data.has_tla == old_data.has_tla
            &&& modules.len() <= after.len()
            &&& forall|p: int| 0 <= p < modules.len() ==> (#[trigger] modules[p]).0 == after[p].0
            &&& is_from_other(t) ==> has_key(after, dep) && data.re_exports
                == old_data.re_exports + item_re_exports(t, dep, key_place(after, dep))
            &&& !is_from_other(t) ==> data.re_exports == old_data.re_exports
        }),
{
    let dep = resolved(deps, source_text(t));
    let middle = if is_from_other(t) {
        mentioned(modules, dep)
    } else {
        modules
    };
    lemma_mentioned(modules, dep, specifier);
    lemma_mentioned(modules, dep, dep);
    let d = data_of(middle, specifier);
    let changed = Data {
        exports: d.exports + item_exports(t, ids, is_root),
        re_exports: if is_from_other(t) {
            d.re_exports + item_re_exports(t, dep, key_place(middle, dep))
        } else {
            d.re_exports
        },
        ..d
    };
    lemma_with_data(middle, specifier, changed, specifier);
    lemma_with_data(middle, specifier, changed, dep);
    let after = item_added(t, specifier, deps, ids, is_root, modules);
    lemma_key_place(middle, specifier);
    assert forall|p: int| 0 <= p < modules.len() implies (#[trigger] modules[p]).0 == after[p].0 by {
        assert(middle[p] == modules[p]);
    }
}

proof fn lemma_items(
    items: Seq<Tree>,
    n: nat,
    specifier: Seq<char>,
    deps: Seq<(Seq<char>, Seq<char>)>,
    ids: Seq<super::transform::Replaced>,
    is_root: bool,
    modules: Seq<(Seq<char>, Data)>,
)
    requires
        has_key(modules, specifier),
        n <= items.len(),
    ensures
        ({
            let after = items_added(items, n, specifier, deps, ids, is_root, modules);
            &&& has_key(after, specifier)
            &&& data_of(after, specifier).has_tla == data_of(modules, specifier).has_tla
        }),
    decreases n,
{
    if n > 0 {
        lemma_items(items, (n - 1) as nat, specifier, deps, ids, is_root, modules);
        let before = items_added(
            items,
            (n - 1) as nat,
            specifier,
            deps,
            ids,
            is_root,
            modules,
        );
        lemma_item(items[n - 1], specifier, deps, ids, is_root, before);
    }
}

proof fn lemma_items_passed(
    items: Seq<Tree>,
    n: nat,
    specifier: Seq<char>,
    deps: Seq<(Seq<char>, Seq<char>)>,
    ids: Seq<super::transform::Replaced>,
    is_root: bool,
    modules: Seq<(Seq<char>, Data)>,
    i: int,
    name: Passed,
)
    requires
        has_key(modules, specifier),
        0 <= i < n <= items.len(),
        is_from_other(items[i]),
        says_passed(items[i], name),
    ensures
        is_passed_of(
            items_added(items, n, specifier, deps, ids, is_root, modules),
            specifier,
            name,
            resolved(deps, source_text(items[i])),
        ),
    decreases n,
{
    let before = items_added(items, (n - 1) as nat, specifier, deps, ids, is_root, modules);
    let after = items_added(items, n, specifier, deps, ids, is_root, modules);
    let t = items[n - 1];
    let url = resolved(deps, source_text(items[i]));
    lemma_items(items, (n - 1) as nat, specifier, deps, ids, is_root, modules);
    lemma_item(t, specifier, deps, ids, is_root, before);
    let own = data_of(before, specifier).re_exports;
    let dep = resolved(deps, source_text(t));
    let more = item_re_exports(t, dep, key_place(after, dep));
    if i < n - 1 {
        lemma_items_passed(
            items,
            (n - 1) as nat,
            specifier,
            deps,
            ids,
            is_root,
            modules,
            i,
            name,
        );
        let id = choose|id: usize|
            #![trigger is_numbered(before, url, id)]
            is_numbered(before, url, id) && is_passed(own, name, url, id);
        lemma_numbered_kept(before, after, url, id);
        lemma_passed_grows(own, more, name, url, id);
        assert(is_passed(data_of(after, specifier).re_exports, name, url, id));
    } else {
        let p = key_place(after, dep);
        lemma_key_place(after, dep);
        assert(after[p].0 == dep);
        assert(is_numbered(after, url, p as usize));
        law_passed_exports_are_what_the_item_says(t, dep, p, name);
        lemma_passed_grows(own, more, name, url, p as usize);
        assert(is_passed(data_of(after, specifier).re_exports, name, url, p as usize));
    }
}

/// After a module was analyzed for the first time it is known whether it awaits at its top
/// level, and its own exports are just what its items say.
pub proof fn law_own_exports_are_known(
    modules: Seq<(Seq<char>, Data)>,
    specifier: Seq<char>,
    deps: Seq<(Seq<char>, Seq<char>)>,
    module: Tree,
    is_root: bool,
    local: Seq<char>,
    name: Seq<char>,
)
    requires
        is_blank(modules, specifier),
        module_supported(module.children, deps, is_root),
        forall|i: int, path: Seq<int>|
            0 <= i < module.children.len() && (#[trigger] module.children[i]).kind
                == Kind::ImportDecl ==> !#[trigger] awaits_at(module.children[i], path),
    ensures
        ({
            let items = module.children;
            let data = data_of(analyzed(modules, specifier, deps, module, is_root), specifier);
            let ids = imports_upto(items, items.len(), deps, modules).ids;
            &&& data.has_tla <==> exists|i: int, path: Seq<int>|
                0 <= i < items.len() && #[trigger] awaits_at(items[i], path)
            &&& is_recorded(data.exports, local, name) <==> exists|i: int|
                0 <= i < items.len() && says_export(#[trigger] items[i], ids, local, name)
        }),
{
    let items = module.children;
    let ids = imports_upto(items, items.len(), deps, modules).ids;
    lemma_analyzed(modules, specifier, deps, module, is_root, specifier);
    lemma_have_parts(items, deps, modules, is_root);
    law_exports_are_what_the_items_say(items, items.len(), ids, is_root, local, name);
    law_awaiting_is_seen_at_any_depth(items);
    lemma_tla(modules, specifier, deps, module, is_root);
}

proof fn lemma_tla(
    modules: Seq<(Seq<char>, Data)>,
    specifier: Seq<char>,
    deps: Seq<(Seq<char>, Seq<char>)>,
    module: Tree,
    is_root: bool,
)
    ensures
        ({
            let items = module.children;
            let after = analyzed(modules, specifier, deps, module, is_root);
            let imports = imports_upto(items, items.len(), deps, modules);
            let known = mentioned(imports.modules, specifier);
            let awaited = with_data(
                known,
                specifier,
                Data { has_tla: top_level_await(items), ..data_of(known, specifier) },
            );
            let added = items_added(
                items,
                items.len(),
                specifier,
                deps,
                imports.ids,
                is_root,
                awaited,
            );
            &&& has_key(awaited, specifier)
            &&& has_key(added, specifier)
            &&& data_of(after, specifier).has_tla == top_level_await(items)
            &&& data_of(after, specifier).re_exports == data_of(added, specifier).re_exports
            &&& added.len() == after.len()
            &&& forall|p: int| 0 <= p < added.len() ==> (#[trigger] added[p]).0 == after[p].0
        }),
{
    let items = module.children;
    let imports = imports_upto(items, items.len(), deps, modules);
    let known = mentioned(imports.modules, specifier);
    let first = Data { has_tla: top_level_await(items), ..data_of(known, specifier) };
    let awaited = with_data(known, specifier, first);
    lemma_mentioned(imports.modules, specifier, specifier);
    lemma_with_data(known, specifier, first, specifier);
    lemma_items(items, items.len(), specifier, deps, imports.ids, is_root, awaited);
    let added = items_added(
        items,
        items.len(),
        specifier,
        deps,
        imports.ids,
        is_root,
        awaited,
    );
    let last = Data {
        module: Some(emitted(module, imports.ids, is_root)),
        ..data_of(added, specifier)
    };
    lemma_with_data(added, specifier, last, specifier);
    lemma_key_place(added, specifier);
}

/// After a module was analyzed it is known what it exports of others: whatever an item
/// says, of the module that the item names.
pub proof fn law_passed_exports_are_known(
    modules: Seq<(Seq<char>, Data)>,
    specifier: Seq<char>,
    deps: Seq<(Seq<char>, Seq<char>)>,
    module: Tree,
    is_root: bool,
    i: int,
    name: Passed,
    url: Seq<char>,
)
    requires
        0 <= i < module.children.len(),
        !module.children[i].flags.type_only,
        module.children[i].kind == Kind::ExportAll || module.children[i].kind == Kind::ExportNamed
            && has_part(module.children[i], Role::Source),
        is_dependency(deps, child(module.children[i], Role::Source).text, url),
        says_passed(module.children[i], name),
    ensures
        is_passed_of(
            analyzed(modules, specifier, deps, module, is_root),
            specifier,
            name,
            url,
        ),
{
    let items = module.children;
    let imports = imports_upto(items, items.len(), deps, modules);
    let known = mentioned(imports.modules, specifier);
    let first = Data { has_tla: top_level_await(items), ..data_of(known, specifier) };
    let awaited = with_data(known, specifier, first);
    lemma_tla(modules, specifier, deps, module, is_root);
    lemma_dependency(deps, source_text(items[i]), url);
    lemma_items_passed(
        items,
        items.len(),
        specifier,
        deps,
        imports.ids,
        is_root,
        awaited,
        i,
        name,
    );
    let added = items_added(
        items,
        items.len(),
        specifier,
        deps,
        imports.ids,
        is_root,
        awaited,
    );
    let after = analyzed(modules, specifier, deps, module, is_root);
    let id = choose|id: usize|
        #![trigger is_numbered(added, url, id)]
        is_numbered(added, url, id) && is_passed(
            data_of(added, specifier).re_exports,
            name,
            url,
            id,
        );
    lemma_numbered_kept(added, after, url, id);
}

/// Whether a text is another with nothing but white space around it, and has none at its
/// ends.
pub open spec fn is_trimmed(s: Seq<char>, inner: Seq<char>) -> bool {
    &&& inner.len() == 0 || !white(inner[0]) && !white(inner.last())
    &&& exists|a: int, b: int|
        {
            &&& 0 <= a <= b <= s.len()
            &&& #[trigger] s.subrange(a, b) == inner
            &&& forall|i: int| 0 <= i < a || b <= i < s.len() ==> white(#[trigger] s[i])
        }
}

/// The text without such characters at its two ends.
spec fn trimmed_by(s: Seq<char>, w: spec_fn(char) -> bool) -> Seq<char>
    decreases s.len(),
{
    if s.len() > 0 && w(s[0]) {
        trimmed_by(s.skip(1), w)
    } else if s.len() > 0 && w(s.last()) {
        trimmed_by(s.drop_last(), w)
    } else {
        s
    }
}

/// Whether only such characters stand outside a part of a text.
spec fn only_outside(s: Seq<char>, a: int, b: int, w: spec_fn(char) -> bool) -> bool {
    forall|i: int| 0 <= i < a || b <= i < s.len() ==> w(#[trigger] s[i])
}

proof fn lemma_trimmed_by(s: Seq<char>, w: spec_fn(char) -> bool) -> (r: (int, int))
    ensures
        0 <= r.0 <= r.1 <= s.len(),
        s.subrange(r.0, r.1) == trimmed_by(s, w),
        only_outside(s, r.0, r.1, w),
        trimmed_by(s, w).len() == 0 || !w(trimmed_by(s, w)[0]) && !w(trimmed_by(s, w).last()),
    decreases s.len(),
{
    if s.len() > 0 && w(s[0]) {
        let rest = s.skip(1);
        let (a, b) = lemma_trimmed_by(rest, w);
        assert(s.subrange(a + 1, b + 1) =~= rest.subrange(a, b));
        assert forall|i: int| 0 <= i < a + 1 || b + 1 <= i < s.len() implies w(#[trigger] s[i]) by {
            if i > 0 {
                assert(rest[i - 1] == s[i]);
            }
        }
        (a + 1, b + 1)
    } else if s.len() > 0 && w(s.last()) {
        let rest = s.drop_last();
        let (a, b) = lemma_trimmed_by(rest, w);
        assert(s.subrange(a, b) =~= rest.subrange(a, b));
        assert forall|i: int| 0 <= i < a || b <= i < s.len() implies w(#[trigger] s[i]) by {
            if i < rest.len() {
                assert(rest[i] == s[i]);
            }
        }
        (a, b)
    } else {
        assert(s.subrange(0, s.len() as int) =~= s);
        (0, s.len() as int)
    }
}

proof fn lemma_trimmed_same(s: Seq<char>)
    ensures
        trimmed(s) == trimmed_by(s, |c: char| white(c)),
    decreases s.len(),
{
    if s.len() > 0 && white(s[0]) {
        lemma_trimmed_same(s.skip(1));
    } else if s.len() > 0 && white(s.last()) {
        lemma_trimmed_same(s.drop_last());
    }
}

/// Trimming takes away the white space at the two ends of a text, all of it, and nothing
/// else.
pub proof fn law_trimming_takes_white_space_only(s: Seq<char>)
    ensures
        is_trimmed(s, trimmed(s)),
{
    let w = |c: char| white(c);
    lemma_trimmed_same(s);
    let (a, b) = lemma_trimmed_by(s, w);
    assert(s.subrange(a, b) == trimmed(s));
    assert forall|i: int| 0 <= i < a || b <= i < s.len() implies white(#[trigger] s[i]) by {
        assert(w(s[i]));
    }
    let inner = trimmed(s);
    if inner.len() > 0 {
        assert(!w(inner[0]) && !w(inner.last()));
    }
}

/// Whether a text holds another.
pub open spec fn holds(s: Seq<char>, part: Seq<char>) -> bool {
    exists|a: int, b: int| 0 <= a <= b <= s.len() && #[trigger] s.subrange(a, b) == part
}

proof fn lemma_holds_kept(s: Seq<char>, more: Seq<char>, part: Seq<char>)
    ensures
        holds(s, part) || holds(more, part) ==> holds(s + more, part),
{
    let all = s + more;
    if holds(s, part) {
        let (a, b) = choose|a: int, b: int|
            0 <= a <= b <= s.len() && #[trigger] s.subrange(a, b) == part;
        assert(all.subrange(a, b) =~= part);
    }
    if holds(more, part) {
        let (a, b) = choose|a: int, b: int|
            0 <= a <= b <= more.len() && #[trigger] more.subrange(a, b) == part;
        assert(all.subrange(s.len() + a, s.len() + b) =~= part);
    }
}

proof fn lemma_json_in(
    modules: Seq<GraphModule>,
    n: nat,
    root: Seq<char>,
    h: Header,
    i: int,
)
    requires
        0 <= i < n <= modules.len(),
        modules[i] is Json,
        is_file_url(modules[i].url()),
    ensures
        ({
            let after = header_upto(modules, n, true, root, h);
            let url = modules[i].url();
            &&& has_key(after.data, url)
            &&& holds(
                after.text,
                "const "@ + code_name(key_place(after.data, url)) + " = {\n  default: "@ + trimmed(
                    modules[i]->Json_0.source@,
                ) + "\n};\n"@,
            )
        }),
    decreases n,
{
    let before = header_upto(modules, (n - 1) as nat, true, root, h);
    let after = header_upto(modules, n, true, root, h);
    let url = modules[i].url();
    let last = modules[n - 1].url();
    lemma_mentioned(before.data, last, url);
    lemma_mentioned(before.data, last, last);
    if i < n - 1 {
        lemma_json_in(modules, (n - 1) as nat, root, h, i);
        let part = "const "@ + code_name(key_place(before.data, url)) + " = {\n  default: "@
            + trimmed(modules[i]->Json_0.source@) + "\n};\n"@;
        let more = after.text.skip(before.text.len() as int);
        assert(after.text =~= before.text + more);
        lemma_holds_kept(before.text, more, part);
    } else {
        let dir = super::graph_root_dir(modules);
        let shown = displayed(dir, url);
        let code = code_name(key_place(after.data, url));
        let source = trimmed(modules[i]->Json_0.source@);
        let part = "const "@ + code + " = {\n  default: "@ + source + "\n};\n"@;
        let text = super::json_text(shown, code, modules[i]->Json_0.source@);
        assert(after.text == before.text + text);
        reveal_strlit("\nconst ");
        reveal_strlit("const ");
        reveal_strlit("// ");
        let from = shown.len() as int + 4;
        assert("\nconst "@.skip(1) =~= "const "@);
        assert(text.subrange(from, text.len() as int) =~= part);
        assert(holds(text, part));
        lemma_holds_kept(before.text, text, part);
    }
}

/// A JSON file is declared as an object whose default export is what the file holds,
/// without the white space around it.
pub proof fn law_json_is_the_default_export(
    modules: Seq<GraphModule>,
    root: Seq<char>,
    data: Seq<(Seq<char>, Data)>,
    i: int,
)
    requires
        0 <= i < modules.len(),
        modules[i] is Json,
        is_file_url(modules[i].url()),
    ensures
        exists|source: Seq<char>|
            {
                let h = header(modules, root, data);
                &&& #[trigger] is_trimmed(modules[i]->Json_0.source@, source)
                &&& holds(
                    h.text,
                    "const "@ + code_name(key_place(h.data, modules[i].url()))
                        + " = {\n  default: "@ + source + "\n};\n"@,
                )
            },
{
    let start = Header { data, items: Seq::empty(), text: Seq::empty() };
    let remote = header_upto(modules, modules.len(), false, root, start);
    lemma_json_in(modules, modules.len(), root, remote, i);
    law_trimming_takes_white_space_only(modules[i]->Json_0.source@);
    assert(is_trimmed(modules[i]->Json_0.source@, trimmed(modules[i]->Json_0.source@)));
}

/// Whether an item declares an object with a place for an export.
pub open spec fn has_place_for(t: Tree, object: Seq<char>, name: Seq<char>) -> bool {
    exists|value: Tree|
        {
            &&& #[trigger] is_const_of(t, object, value)
            &&& value.kind == Kind::ObjectLit
            &&& exists|i: int|
                {
                    let prop = #[trigger] value.children[i];
                    &&& 0 <= i < value.children.len() && prop.role == Role::Prop
                    &&& prop.kind == Kind::KeyValueProp && prop.children.len() == 2
                    &&& prop.children[0].role == Role::Key && prop.children[0].text == name
                }
        }
}

/// Whether an item imports everything of a module under a name.
pub open spec fn imports_all_as(t: Tree, name: Seq<char>, url: Seq<char>) -> bool {
    let part = t.children[0];
    &&& t.kind == Kind::ImportDecl && t.children.len() == 2
    &&& part.role == Role::Specifier && part.kind == Kind::ImportNamespace
    &&& part.children.len() == 1 && part.children[0].role == Role::Local
    &&& part.children[0].text == name
    &&& t.children[1].role == Role::Source && t.children[1].text == url
}

/// Before any code a module on the web is imported under the name of its object, and a file
/// other than the root has an object with a place for each name that it exports.
pub proof fn law_objects_have_places_for_exports(
    modules: Seq<GraphModule>,
    root: Seq<char>,
    data: Seq<(Seq<char>, Data)>,
    i: int,
    name: Seq<char>,
)
    requires
        0 <= i < modules.len(),
    ensures
        ({
            let h = header(modules, root, data);
            let url = modules[i].url();
            let object = code_name(key_place(h.data, url));
            &&& has_key(h.data, url)
            &&& !is_file_url(url) ==> exists|k: int|
                0 <= k < h.items.len() && imports_all_as(#[trigger] h.items[k], object, url)
            &&& is_file_url(url) && modules[i] is Esm && url != root && exports_name(
                h.data,
                url,
                name,
            ) ==> exists|k: int|
                0 <= k < h.items.len() && has_place_for(#[trigger] h.items[k], object, name)
        }),
{
    law_every_module_is_declared(modules, root, data, i);
    let h = header(modules, root, data);
    let url = modules[i].url();
    let object = code_name(key_place(h.data, url));
    if !is_file_url(url) {
        let t = at(Role::Item, external_import_tree(object, url));
        let k = h.items.index_of(t);
        assert(imports_all_as(h.items[k], object, url));
    } else if modules[i] is Esm && url != root && exports_name(h.data, url, name) {
        let names = export_names(h.data, url);
        super::data::lemma_export_names(h.data, url);
        assert(names.contains(name));
        let j = names.index_of(name);
        let t = at(Role::Item, object_decl_tree(object, names));
        let k = h.items.index_of(t);
        let value = crate::helpers::made(Kind::ObjectLit, super::undefined_props(names));
        let d = t.children[0];
        assert(d.children[0].children[0].text == object);
        assert(d.children[1] == at(Role::Init, value));
        assert(is_const_of(h.items[k], object, value));
        let prop = value.children[j];
        assert(prop.children[0].text == name);
        assert(has_place_for(h.items[k], object, name));
    }
}

/// Whether a module is known to export something under the name: of its own, of another
/// module, or another module itself.
pub open spec fn gives(data: Data, name: Seq<char>) -> bool {
    ||| exists|k: int| 0 <= k < data.exports.len() && (#[trigger] data.exports[k]).name() == name
    ||| exists|k: int|
        0 <= k < data.re_exports.len() && match (#[trigger] data.re_exports[k]).name {
            Passed::Named(export) => export.name() == name,
            Passed::Namespace(other) => other == name,
            Passed::All => false,
        }
}

/// Whether a module is known to export everything of another.
pub open spec fn gives_all_of(data: Data, url: Seq<char>) -> bool {
    exists|k: int|
        0 <= k < data.re_exports.len() && (#[trigger] data.re_exports[k]).name is All
            && data.re_exports[k].specifier == url
}

/// Whether each module of a chain is known to export everything of the next.
pub open spec fn is_star_chain(s: Seq<(Seq<char>, Data)>, chain: Seq<Seq<char>>) -> bool {
    &&& chain.len() > 0
    &&& forall|i: int|
        #![trigger chain[i]]
        0 <= i < chain.len() - 1 ==> has_key(s, chain[i]) && gives_all_of(
            data_of(s, chain[i]),
            chain[i + 1],
        )
}

pub proof fn lemma_gives(data: Data, name: Seq<char>)
    ensures
        gives(data, name) <==> super::data::declares(data, name),
{
    if gives(data, name) && !(exists|k: int|
        0 <= k < data.exports.len() && (#[trigger] data.exports[k]).name() == name) {
        let k = choose|k: int|
            0 <= k < data.re_exports.len() && match (#[trigger] data.re_exports[k]).name {
                Passed::Named(export) => export.name() == name,
                Passed::Namespace(other) => other == name,
                Passed::All => false,
            };
        assert(super::data::passes(data.re_exports[k], name));
    }
}

/// A module exports a name if it gives it itself or, but for `default`, if a module does
/// of which it exports everything, itself or through others.
pub proof fn law_names_come_from_modules_that_give_them(
    s: Seq<(Seq<char>, Data)>,
    chain: Seq<Seq<char>>,
    name: Seq<char>,
)
    requires
        is_star_chain(s, chain),
        has_key(s, chain.last()),
        gives(data_of(s, chain.last()), name),
        chain.last() == chain[0] || name != "default"@,
    ensures
        export_names(s, chain[0]).contains(name),
{
    let to = chain.last();
    lemma_gives(data_of(s, to), name);
    super::data::lemma_export_names(s, chain[0]);
    assert(super::data::leads(s, chain, chain[0], to)) by {
        assert forall|i: int|
            #![trigger chain[i]]
            0 <= i < chain.len() - 1 implies super::data::passes_all_of(
            data_of(s, chain[i]),
            chain[i + 1],
        ) by {
            assert(gives_all_of(data_of(s, chain[i]), chain[i + 1]));
        }
    }
    assert(super::data::reaches(s, chain[0], to));
    assert(exports_name(s, chain[0], name));
}

/// And no module exports a name that none of these gives.
pub proof fn law_no_other_names_are_exported(
    s: Seq<(Seq<char>, Data)>,
    from: Seq<char>,
    name: Seq<char>,
)
    requires
        export_names(s, from).contains(name),
    ensures
        exists|chain: Seq<Seq<char>>|
            {
                &&& #[trigger] is_star_chain(s, chain)
                &&& chain[0] == from
                &&& has_key(s, chain.last())
                &&& gives(data_of(s, chain.last()), name)
                &&& chain.last() == from || name != "default"@
            },
{
    super::data::lemma_export_names(s, from);
    assert(exports_name(s, from, name));
    let to = choose|to: Seq<char>| #[trigger]
        super::data::reaches(s, from, to) && has_key(s, to) && super::data::gives_to(
            data_of(s, to),
            name,
            to == from,
        );
    let chain = choose|path: Seq<Seq<char>>| super::data::leads(s, path, from, to);
    lemma_gives(data_of(s, to), name);
    assert(is_star_chain(s, chain)) by {
        assert forall|i: int|
            #![trigger chain[i]]
            0 <= i < chain.len() - 1 implies has_key(s, chain[i]) && gives_all_of(
            data_of(s, chain[i]),
            chain[i + 1],
        ) by {
            assert(super::data::passes_all_of(data_of(s, chain[i]), chain[i + 1]));
        }
    }
}

}
