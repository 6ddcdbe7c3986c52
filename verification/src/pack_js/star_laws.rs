//! How what a module exports with everything of others is given.

use vstd::prelude::*;

use super::data::{code_name, data_of, export_names, exports_name, Data};
use super::emit::{
    definitions_upto, has_property, lemma_stars_upto, module_output, moved_upto, named_upto,
    own_upto, properties, root_properties, star_names_upto, stars_upto, Defined,
};
use super::export_laws::{code_of, has_getter, is_getter, lemma_code, lemma_definition};
use super::known_laws::{gives, lemma_gives};
use super::order_laws::{exports_value, lemma_root_value};
use super::rewrite_laws::is_member_path;
use crate::collections::key_place;
use crate::helpers::member_tree;
use crate::syntax::Tree;

verus! {

/// Whether a value is an export of a module of which another exports everything.
pub open spec fn is_star_value(
    s: Seq<(Seq<char>, Data)>,
    data: Data,
    name: Seq<char>,
    value: Tree,
) -> bool {
    exists|k: int|
        {
            let p = #[trigger] data.re_exports[k];
            &&& 0 <= k < data.re_exports.len() && p.name is All
            &&& export_names(s, p.specifier).contains(name)
            &&& is_member_path(value, seq![code_name(p.module_id as int), name])
        }
}

proof fn lemma_member(object: Seq<char>, name: Seq<char>)
    ensures
        is_member_path(member_tree(object, name), seq![object, name]),
{
    let t = member_tree(object, name);
    let path = seq![object, name];
    assert(path.drop_last() =~= seq![object]);
    assert(is_member_path(t.children[0], seq![object]));
}

proof fn lemma_star_names(
    data: Data,
    before: Seq<Defined>,
    names: Seq<Seq<char>>,
    n: nat,
    id: int,
    i: int,
)
    requires
        n <= names.len(),
        0 <= i < star_names_upto(data, before, names, n, id).len(),
    ensures
        ({
            let d = star_names_upto(data, before, names, n, id)[i];
            (i < before.len() && d == before[i]) || names.contains(d.name) && d.expr
                == member_tree(code_name(id), d.name)
        }),
    decreases n,
{
    if n > 0 {
        let so_far = star_names_upto(data, before, names, (n - 1) as nat, id);
        if i < so_far.len() {
            lemma_star_names(data, before, names, (n - 1) as nat, id, i);
        }
    }
}

proof fn lemma_star_value(s: Seq<(Seq<char>, Data)>, data: Data, n: nat, i: int)
    requires
        n <= data.re_exports.len(),
        0 <= i < stars_upto(s, data, n).len(),
    ensures
        is_star_value(s, data, stars_upto(s, data, n)[i].name, stars_upto(s, data, n)[i].expr),
    decreases n,
{
    if n > 0 {
        let before = stars_upto(s, data, (n - 1) as nat);
        let p = data.re_exports[n - 1];
        if p.name is All {
            let names = export_names(s, p.specifier);
            let d = stars_upto(s, data, n)[i];
            lemma_star_names(data, before, names, names.len(), p.module_id as int, i);
            if i < before.len() && d == before[i] {
                lemma_star_value(s, data, (n - 1) as nat, i);
            } else {
                lemma_member(code_name(p.module_id as int), d.name);
                assert(data.re_exports[n - 1].name is All);
            }
        } else {
            lemma_star_value(s, data, (n - 1) as nat, i);
        }
    }
}

proof fn lemma_star_place(
    s: Seq<(Seq<char>, Data)>,
    data: Data,
    k: int,
    name: Seq<char>,
) -> (i: int)
    requires
        0 <= k < data.re_exports.len(),
        data.re_exports[k].name is All,
        export_names(s, data.re_exports[k].specifier).contains(name),
        name != "default"@,
        !gives(data, name),
    ensures
        0 <= i < stars_upto(s, data, data.re_exports.len()).len(),
        stars_upto(s, data, data.re_exports.len())[i].name == name,
        is_star_value(s, data, name, stars_upto(s, data, data.re_exports.len())[i].expr),
{
    let n = data.re_exports.len();
    lemma_gives(data, name);
    super::data::lemma_export_names(s, data.re_exports[k].specifier);
    assert(exports_name(s, data.re_exports[k].specifier, name));
    lemma_stars_upto(s, data, n, name);
    let all = stars_upto(s, data, n);
    assert(has_property(all, name));
    let i = choose|i: int| 0 <= i < all.len() && (#[trigger] all[i]).name == name;
    lemma_star_value(s, data, n, i);
    i
}

/// What a module other than the root exports with everything of another has a getter for
/// the other's export under the name, unless the module gives the name itself.
pub proof fn law_exports_of_everything_have_getters(
    s: Seq<(Seq<char>, Data)>,
    url: Seq<char>,
    label: Seq<char>,
    items: Seq<Tree>,
    k: int,
    name: Seq<char>,
)
    requires
        0 <= k < data_of(s, url).re_exports.len(),
        data_of(s, url).re_exports[k].name is All,
        export_names(s, data_of(s, url).re_exports[k].specifier).contains(name),
        name != "default"@,
        !gives(data_of(s, url), name),
    ensures
        exists|value: Tree|
            is_star_value(s, data_of(s, url), name, value) && #[trigger] has_getter(
                code_of(s, url, label, items),
                code_name(key_place(s, url)),
                name,
                value,
            ),
{
    let data = data_of(s, url);
    let all = properties(s, data);
    let object = code_name(key_place(s, url));
    let code = code_of(s, url, label, items);
    lemma_code(s, url, label, items);
    let stars = stars_upto(s, data, data.re_exports.len());
    let i = lemma_star_place(s, data, k, name);
    let own = own_upto(data.exports, data.exports.len());
    let named = named_upto(data.re_exports, data.re_exports.len());
    let p = own.len() + named.len() + i;
    assert(all[p] == stars[i]);
    lemma_definition(object, all, all.len(), p);
    let defs = definitions_upto(object, all, all.len());
    assert(code[items.len() + p] == defs[p]);
    assert(is_getter(code[items.len() + p], object, name, stars[i].expr));
    assert(has_getter(code, object, name, stars[i].expr));
}

/// And the root exports it from the other's object.
pub proof fn law_the_root_exports_everything_of_others(
    s: Seq<(Seq<char>, Data)>,
    root: Seq<char>,
    label: Seq<char>,
    items: Seq<Tree>,
    k: int,
    name: Seq<char>,
)
    requires
        0 <= k < data_of(s, root).re_exports.len(),
        data_of(s, root).re_exports[k].name is All,
        export_names(s, data_of(s, root).re_exports[k].specifier).contains(name),
        name != "default"@,
        !gives(data_of(s, root), name),
    ensures
        exists|value: Tree|
            is_star_value(s, data_of(s, root), name, value) && #[trigger] exports_value(
                module_output(s, root, true, label, items),
                name,
                value,
            ),
{
    let data = data_of(s, root);
    let stars = stars_upto(s, data, data.re_exports.len());
    let i = lemma_star_place(s, data, k, name);
    let moved = moved_upto(data.exports, data.exports.len());
    let named = named_upto(data.re_exports, data.re_exports.len());
    let p = moved.len() + named.len() + i;
    assert(root_properties(s, data)[p] == stars[i]);
    lemma_root_value(s, root, label, items, p);
    assert(exports_value(
        module_output(s, root, true, label, items),
        name,
        stars[i].expr,
    ));
}

}
