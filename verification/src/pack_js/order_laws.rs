//! In which order the code of the modules comes, and how the root exports.

use vstd::prelude::*;

use super::data::{code_name, data_of, Data, Export, Passed, PassedOn};
use super::emit::{
    module_output, moved_upto, named_upto, passed_on, root_exports_upto, root_properties,
    temp_name, Defined,
};
use super::item_laws::is_const_of;
use super::rewrite_laws::is_member_path;
use super::{
    code_from, graph_root_dir, header, module_code, packed_items, GraphModule, PackOptions,
};
use crate::dts::namespace_laws::is_export_as;
use crate::helpers::{member_tree, name_expr_tree};
use crate::specifier::is_file_url;
use crate::syntax::Tree;
use crate::text::lemma_decimal_injective;

verus! {

/// Whether one list stands in another before a third.
pub open spec fn in_order(s: Seq<Tree>, first: Seq<Tree>, second: Seq<Tree>) -> bool {
    exists|a: Seq<Tree>, b: Seq<Tree>, c: Seq<Tree>|
        #![trigger a + first, b + second, second + c]
        s == a + first + b + (second + c)
}

/// The code of a module in the output.
pub open spec fn code_at(
    modules: Seq<GraphModule>,
    transpiled: Seq<Tree>,
    root: Seq<char>,
    data: Seq<(Seq<char>, Data)>,
    i: int,
) -> Seq<Tree> {
    module_code(modules[i], transpiled[i], root, graph_root_dir(modules), data)
}

/// The code of a list of modules stands one behind the other, and each is there.
proof fn lemma_code_in(
    modules: Seq<GraphModule>,
    transpiled: Seq<Tree>,
    from: int,
    files: bool,
    root: Seq<char>,
    data: Seq<(Seq<char>, Data)>,
    i: int,
) -> (split: (Seq<Tree>, Seq<Tree>))
    requires
        0 <= from <= i < modules.len(),
        is_file_url(modules[i].url()) == files,
    ensures
        code_from(modules, transpiled, from, files, root, data) == split.0 + code_at(
            modules,
            transpiled,
            root,
            data,
            i,
        ) + split.1,
    decreases i - from,
{
    let before = code_from(modules, transpiled, from + 1, files, root, data);
    let own = code_at(modules, transpiled, root, data, from);
    let all = code_from(modules, transpiled, from, files, root, data);
    let x = code_at(modules, transpiled, root, data, i);
    if i == from {
        assert(all =~= before + x + Seq::<Tree>::empty());
        (before, Seq::empty())
    } else {
        let (a, b) = lemma_code_in(modules, transpiled, from + 1, files, root, data, i);
        if is_file_url(modules[from].url()) == files {
            assert(all =~= a + x + (b + own));
            (a, b + own)
        } else {
            (a, b)
        }
    }
}

proof fn lemma_code_order(
    modules: Seq<GraphModule>,
    transpiled: Seq<Tree>,
    from: int,
    files: bool,
    root: Seq<char>,
    data: Seq<(Seq<char>, Data)>,
    i: int,
    j: int,
) -> (split: (Seq<Tree>, Seq<Tree>, Seq<Tree>))
    requires
        0 <= from <= i < j < modules.len(),
        is_file_url(modules[i].url()) == files,
        is_file_url(modules[j].url()) == files,
    ensures
        code_from(modules, transpiled, from, files, root, data) == split.0 + code_at(
            modules,
            transpiled,
            root,
            data,
            j,
        ) + split.1 + (code_at(modules, transpiled, root, data, i) + split.2),
    decreases i - from,
{
    let all = code_from(modules, transpiled, from, files, root, data);
    let x = code_at(modules, transpiled, root, data, i);
    let y = code_at(modules, transpiled, root, data, j);
    if i == from {
        let (a, b) = lemma_code_in(modules, transpiled, from + 1, files, root, data, j);
        assert(all =~= a + y + b + (x + Seq::<Tree>::empty()));
        (a, b, Seq::empty())
    } else {
        let (a, b, c) = lemma_code_order(
            modules,
            transpiled,
            from + 1,
            files,
            root,
            data,
            i,
            j,
        );
        if is_file_url(modules[from].url()) == files {
            let own = code_at(modules, transpiled, root, data, from);
            assert(all =~= a + y + b + (x + (c + own)));
            (a, b, c + own)
        } else {
            (a, b, c)
        }
    }
}

/// The code of files comes in the order opposite to that in which they were found, so that
/// the root comes last, behind whatever it imports; and it all comes behind the
/// declarations of the modules.
pub proof fn law_what_was_found_later_comes_first(
    modules: Seq<GraphModule>,
    transpiled: Seq<Tree>,
    root: Seq<char>,
    options: PackOptions,
    data: Seq<(Seq<char>, Data)>,
    i: int,
    j: int,
)
    requires
        0 <= i < j < modules.len(),
        is_file_url(modules[i].url()),
        is_file_url(modules[j].url()),
    ensures
        ({
            let h = header(modules, root, data);
            let code = packed_items(modules, transpiled, root, options, data);
            &&& h.items.is_prefix_of(code)
            &&& in_order(
                code.skip(h.items.len() as int),
                code_at(modules, transpiled, root, h.data, j),
                code_at(modules, transpiled, root, h.data, i),
            )
        }),
{
    let h = header(modules, root, data);
    let code = packed_items(modules, transpiled, root, options, data);
    let web = if options.include_remote {
        code_from(modules, transpiled, 0, false, root, h.data)
    } else {
        Seq::empty()
    };
    let local = code_from(modules, transpiled, 0, true, root, h.data);
    let (a, b, c) = lemma_code_order(modules, transpiled, 0, true, root, h.data, i, j);
    let x = code_at(modules, transpiled, root, h.data, i);
    let y = code_at(modules, transpiled, root, h.data, j);
    let rest = code.skip(h.items.len() as int);
    assert(rest =~= web + local);
    assert(h.items =~= code.subrange(0, h.items.len() as int));
    assert(rest =~= (web + a) + y + b + (x + c));
    assert((web + a) + y == (web + a) + y && b + x == b + x);
    assert(in_order(rest, y, x));
}

/// The code of modules on the web, where it is packed, comes before that of files, on which
/// it does not depend.
pub proof fn law_packed_web_modules_come_first(
    modules: Seq<GraphModule>,
    transpiled: Seq<Tree>,
    root: Seq<char>,
    options: PackOptions,
    data: Seq<(Seq<char>, Data)>,
    i: int,
    j: int,
)
    requires
        0 <= i < modules.len(),
        0 <= j < modules.len(),
        !is_file_url(modules[i].url()),
        is_file_url(modules[j].url()),
        options.include_remote,
    ensures
        ({
            let h = header(modules, root, data);
            in_order(
                packed_items(modules, transpiled, root, options, data),
                code_at(modules, transpiled, root, h.data, i),
                code_at(modules, transpiled, root, h.data, j),
            )
        }),
{
    let h = header(modules, root, data);
    let code = packed_items(modules, transpiled, root, options, data);
    let (a, b) = lemma_code_in(modules, transpiled, 0, false, root, h.data, i);
    let (c, d) = lemma_code_in(modules, transpiled, 0, true, root, h.data, j);
    let x = code_at(modules, transpiled, root, h.data, i);
    let y = code_at(modules, transpiled, root, h.data, j);
    assert(code =~= (h.items + a) + x + (b + c) + (y + d));
    assert((h.items + a) + x == (h.items + a) + x && (b + c) + y == (b + c) + y);
}

/// Whether the items give the value a name of its own and export it from there.
pub open spec fn exports_value(s: Seq<Tree>, name: Seq<char>, value: Tree) -> bool {
    exists|k: int, temp: Seq<char>|
        {
            &&& 0 <= k < s.len() - 1
            &&& is_const_of(#[trigger] s[k], temp, value)
            &&& #[trigger] is_export_as(s[k + 1], temp, name)
        }
}

proof fn lemma_root_len(s: Seq<Defined>, n: nat)
    ensures
        root_exports_upto(s, n).len() == 2 * n,
    decreases n,
{
    if n > 0 {
        lemma_root_len(s, (n - 1) as nat);
    }
}

proof fn lemma_root_export(s: Seq<Defined>, n: nat, i: int)
    requires
        0 <= i < n <= s.len(),
    ensures
        root_exports_upto(s, n).len() == 2 * n,
        is_const_of(root_exports_upto(s, n)[2 * i], temp_name(i), s[i].expr),
        is_export_as(root_exports_upto(s, n)[2 * i + 1], temp_name(i), s[i].name),
    decreases n,
{
    lemma_root_len(s, n);
    lemma_root_len(s, (n - 1) as nat);
    let before = root_exports_upto(s, (n - 1) as nat);
    let all = root_exports_upto(s, n);
    if i < n - 1 {
        lemma_root_export(s, (n - 1) as nat, i);
        assert(all[2 * i] == before[2 * i]);
        assert(all[2 * i + 1] == before[2 * i + 1]);
    } else {
        let item = all[2 * i];
        let d = item.children[0];
        assert(d.children[0].children[0].text == temp_name(i));
    }
}

/// The names that the root gives to what it exports of others differ.
pub proof fn law_names_for_exports_differ(i: int, j: int)
    requires
        0 <= i,
        0 <= j,
        i != j,
    ensures
        temp_name(i) != temp_name(j),
{
    let a = crate::text::decimal((i + 1) as nat);
    let b = crate::text::decimal((j + 1) as nat);
    let p = "_packReExport"@;
    if temp_name(i) == temp_name(j) {
        assert(a =~= (p + a).skip(p.len() as int));
        assert(b =~= (p + b).skip(p.len() as int));
        lemma_decimal_injective((i + 1) as nat, (j + 1) as nat);
    }
}

proof fn lemma_moved(exports: Seq<Export>, n: nat, i: int) -> (k: int)
    requires
        0 <= i < n <= exports.len(),
        !exports[i].in_place,
    ensures
        0 <= k < moved_upto(exports, n).len(),
        moved_upto(exports, n)[k] == (Defined {
            name: exports[i].name(),
            expr: name_expr_tree(exports[i].local),
        }),
    decreases n,
{
    if i < n - 1 {
        lemma_moved(exports, (n - 1) as nat, i)
    } else {
        moved_upto(exports, (n - 1) as nat).len() as int
    }
}

proof fn lemma_named(s: Seq<PassedOn>, n: nat, i: int) -> (k: int)
    requires
        0 <= i < n <= s.len(),
        !(s[i].name is All),
    ensures
        0 <= k < named_upto(s, n).len(),
        ({
            let code = code_name(s[i].module_id as int);
            match s[i].name {
                Passed::Named(export) => named_upto(s, n)[k] == (Defined {
                    name: export.name(),
                    expr: member_tree(code, export.local),
                }),
                Passed::Namespace(name) => named_upto(s, n)[k] == (Defined {
                    name,
                    expr: name_expr_tree(code),
                }),
                Passed::All => false,
            }
        }),
    decreases n,
{
    if i < n - 1 {
        lemma_named(s, (n - 1) as nat, i)
    } else {
        named_upto(s, (n - 1) as nat).len() as int
    }
}

pub proof fn lemma_root_value(
    s: Seq<(Seq<char>, Data)>,
    root: Seq<char>,
    label: Seq<char>,
    items: Seq<Tree>,
    k: int,
)
    requires
        items.len() > 0 || data_of(s, root).exports.len() > 0 || data_of(
            s,
            root,
        ).re_exports.len() > 0,
        0 <= k < root_properties(s, data_of(s, root)).len(),
    ensures
        exports_value(
            module_output(s, root, true, label, items),
            root_properties(s, data_of(s, root))[k].name,
            root_properties(s, data_of(s, root))[k].expr,
        ),
{
    let all = root_properties(s, data_of(s, root));
    let out = module_output(s, root, true, label, items);
    let own = root_exports_upto(all, all.len());
    lemma_root_export(all, all.len(), k);
    let p = items.len() + 2 * k;
    assert(out[p] == own[2 * k]);
    assert(out[p + 1] == own[2 * k + 1]);
    assert(is_const_of(out[p], temp_name(k), all[k].expr) && is_export_as(
        out[p + 1],
        temp_name(k),
        all[k].name,
    ));
}

/// What the root lists for export but imports, it exports by the path to it.
pub proof fn law_the_root_exports_what_it_imports(
    s: Seq<(Seq<char>, Data)>,
    root: Seq<char>,
    label: Seq<char>,
    items: Seq<Tree>,
    k: int,
)
    requires
        0 <= k < data_of(s, root).exports.len(),
        !data_of(s, root).exports[k].in_place,
    ensures
        exports_value(
            module_output(s, root, true, label, items),
            data_of(s, root).exports[k].name(),
            name_expr_tree(data_of(s, root).exports[k].local),
        ),
{
    let data = data_of(s, root);
    let j = lemma_moved(data.exports, data.exports.len(), k);
    let moved = moved_upto(data.exports, data.exports.len());
    assert(root_properties(s, data)[j] == moved[j]);
    lemma_root_value(s, root, label, items, j);
}

/// What the root exports of other modules by names, it exports from their objects: one of
/// their exports, or the object itself.
pub proof fn law_the_root_exports_what_others_give(
    s: Seq<(Seq<char>, Data)>,
    root: Seq<char>,
    label: Seq<char>,
    items: Seq<Tree>,
    k: int,
)
    requires
        0 <= k < data_of(s, root).re_exports.len(),
    ensures
        ({
            let p = data_of(s, root).re_exports[k];
            let object = code_name(p.module_id as int);
            let out = module_output(s, root, true, label, items);
            match p.name {
                Passed::Named(export) => exists|value: Tree|
                    is_member_path(value, seq![object, export.local]) && #[trigger] exports_value(
                        out,
                        export.name(),
                        value,
                    ),
                Passed::Namespace(name) => exists|value: Tree|
                    is_member_path(value, seq![object]) && #[trigger] exports_value(
                        out,
                        name,
                        value,
                    ),
                Passed::All => true,
            }
        }),
{
    let data = data_of(s, root);
    let p = data.re_exports[k];
    let object = code_name(p.module_id as int);
    let out = module_output(s, root, true, label, items);
    if !(p.name is All) {
        let n = data.re_exports.len();
        let j = lemma_named(data.re_exports, n, k);
        let moved = moved_upto(data.exports, data.exports.len());
        let named = named_upto(data.re_exports, n);
        assert(passed_on(s, data)[j] == named[j]);
        assert(root_properties(s, data)[moved.len() + j] == named[j]);
        lemma_root_value(s, root, label, items, moved.len() + j);
        let value = named[j].expr;
        match p.name {
            Passed::Named(export) => {
                let path = seq![object, export.local];
                assert(path.drop_last() =~= seq![object]);
                assert(is_member_path(value.children[0], seq![object]));
                assert(is_member_path(value, path));
                assert(exports_value(out, export.name(), value));
            },
            _ => {
                assert(is_member_path(value, seq![object]));
            },
        }
    }
}

}
