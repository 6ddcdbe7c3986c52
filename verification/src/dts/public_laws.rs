//! What is part of the public API.

use vstd::prelude::*;

use super::binder::SymbolId;
use super::tracer::{
    all_found, asked, asks, covers, default_symbol, exports_found, finds, first_star, graph_wf,
    has_name, info_of, is_public_at, is_symbol, is_traced, is_traced_by, joined, justified,
    lemma_target, names_upto, needs, outcome, own_upto, requested, stars_upto, symbol_at, Found,
    Info, Outcome, TraceState, Traced, Wanted,
};
use crate::collections::{
    distinct_keys, has_key, key_place, lemma_key_place, lemma_key_place_is, with_entry,
};
use crate::pack_js::analyze::{resolved, resolves};
use crate::pack_js::rewrite_laws::is_dependency;

verus! {

/// Whether a module exports everything of another.
pub open spec fn exports_all_of(
    g: Seq<(Seq<char>, Info)>,
    from: Seq<char>,
    to: Seq<char>,
) -> bool {
    exists|i: int, j: int|
        #![trigger g[i].1.re_exports[j]]
        0 <= i < g.len() && g[i].0 == from && 0 <= j < g[i].1.re_exports.len() && is_dependency(
            g[i].1.dependencies,
            g[i].1.re_exports[j],
            to,
        )
}

/// Whether each module of a chain exports everything of the next.
pub open spec fn is_chain(g: Seq<(Seq<char>, Info)>, chain: Seq<Seq<char>>) -> bool {
    &&& chain.len() > 0
    &&& forall|i: int|
        #![trigger chain[i]]
        0 <= i < chain.len() - 1 ==> exports_all_of(g, chain[i], chain[i + 1])
}

/// Whether a module itself exports a symbol under a name.
pub open spec fn exports_itself(
    g: Seq<(Seq<char>, Info)>,
    specifier: Seq<char>,
    name: Seq<char>,
    symbol: SymbolId,
) -> bool {
    exists|i: int, k: int|
        #![trigger g[i].1.exports[k]]
        0 <= i < g.len() && g[i].0 == specifier && 0 <= k < g[i].1.exports.len()
            && g[i].1.exports[k] == (name, symbol)
}

proof fn lemma_info(g: Seq<(Seq<char>, Info)>, i: int)
    requires
        distinct_keys(g),
        0 <= i < g.len(),
    ensures
        info_of(g, g[i].0) == g[i].1,
        has_key(g, g[i].0),
{
    lemma_key_place_is(g, i);
}

proof fn lemma_resolved(deps: Seq<(Seq<char>, Seq<char>)>, text: Seq<char>, url: Seq<char>)
    ensures
        is_dependency(deps, text, url) <==> resolves(deps, text) && resolved(deps, text) == url,
{
    lemma_key_place(deps, text);
    let p = key_place(deps, text);
    if is_dependency(deps, text, url) {
        let i = choose|i: int|
            {
                &&& 0 <= i < deps.len()
                &&& #[trigger] deps[i] == (text, url)
                &&& forall|j: int| 0 <= j < i ==> (#[trigger] deps[j]).0 != text
            };
        if p < i {
            assert(deps[p].0 != text);
        }
        assert(p == i);
    }
    if resolves(deps, text) && resolved(deps, text) == url {
        assert(deps[p] == (text, url));
    }
}

proof fn lemma_own_found(
    exports: Seq<(Seq<char>, SymbolId)>,
    n: nat,
    specifier: Seq<char>,
    id: int,
    k: int,
)
    requires
        0 <= k < n <= exports.len(),
        exports[k].0 != "default"@,
    ensures
        own_upto(exports, n, specifier, id).contains(
            Found { specifier, module_id: id, name: exports[k].0, symbol_id: exports[k].1 },
        ),
    decreases n,
{
    let f = Found { specifier, module_id: id, name: exports[k].0, symbol_id: exports[k].1 };
    let after = own_upto(exports, n, specifier, id);
    if k < n - 1 {
        lemma_own_found(exports, (n - 1) as nat, specifier, id, k);
        let before = own_upto(exports, (n - 1) as nat, specifier, id);
        let j = before.index_of(f);
        assert(after[j] == before[j]);
    } else {
        assert(after[after.len() - 1] == f);
    }
}

proof fn lemma_joined_keeps(a: Seq<Found>, b: Seq<Found>, n: nat)
    requires
        n <= b.len(),
    ensures
        a.len() <= joined(a, b, n).len(),
        forall|i: int| 0 <= i < a.len() ==> (#[trigger] joined(a, b, n)[i]) == a[i],
        forall|i: int|
            0 <= i < n && (#[trigger] b[i]).name != "default"@ ==> has_name(
                joined(a, b, n),
                b[i].name,
            ),
        forall|f: Found| #[trigger]
            joined(a, b, n).contains(f) ==> a.contains(f) || b.contains(f),
    decreases n,
{
    if n > 0 {
        let m = (n - 1) as nat;
        lemma_joined_keeps(a, b, m);
        let before = joined(a, b, m);
        let after = joined(a, b, n);
        assert forall|name: Seq<char>| has_name(before, name) implies #[trigger] has_name(
            after,
            name,
        ) by {
            let i = choose|i: int| 0 <= i < before.len() && (#[trigger] before[i]).name == name;
            assert(after[i] == before[i]);
        }
        if b[m as int].name != "default"@ && !has_name(before, b[m as int].name) {
            assert(after[before.len() as int] == b[m as int]);
        }
        assert forall|f: Found| #[trigger] after.contains(f) implies a.contains(f) || b.contains(
            f,
        ) by {
            let i = after.index_of(f);
            if i < before.len() {
                assert(before[i] == f);
                assert(before.contains(f));
            } else {
                assert(b[m as int] == f);
            }
        }
        assert forall|i: int| 0 <= i < a.len() implies (#[trigger] after[i]) == a[i] by {
            assert(before[i] == a[i]);
        }
    }
}

proof fn lemma_stars_keep(
    g: Seq<(Seq<char>, Info)>,
    d: nat,
    specifier: Seq<char>,
    m: nat,
    n: nat,
    start: Outcome,
)
    requires
        m <= n,
    ensures
        forall|f: Found| #[trigger]
            stars_upto(g, d, specifier, m, start).found.contains(f) ==> stars_upto(
                g,
                d,
                specifier,
                n,
                start,
            ).found.contains(f),
        stars_upto(g, d, specifier, m, start).failure is Some ==> stars_upto(
            g,
            d,
            specifier,
            n,
            start,
        ).failure is Some,
    decreases n,
{
    if m < n {
        let k = (n - 1) as nat;
        lemma_stars_keep(g, d, specifier, m, k, start);
        let before = stars_upto(g, d, specifier, k, start);
        let after = stars_upto(g, d, specifier, n, start);
        let info = info_of(g, specifier);
        let to = resolved(info.dependencies, info.re_exports[n - 1]);
        let inner = outcome(g, d, before.analyzed, to, Wanted::Star);
        lemma_joined_keeps(before.found, inner.found, inner.found.len());
        assert forall|f: Found| #[trigger] before.found.contains(f) implies after.found.contains(
            f,
        ) by {
            let i = before.found.index_of(f);
            assert(before.found[i] == f);
            let all = joined(before.found, inner.found, inner.found.len());
            assert(all[i] == f);
        }
    }
}

proof fn lemma_name_kept(a: Seq<Found>, b: Seq<Found>, name: Seq<char>)
    requires
        forall|f: Found| #[trigger] a.contains(f) ==> b.contains(f),
        has_name(a, name),
    ensures
        has_name(b, name),
{
    let i = choose|i: int| 0 <= i < a.len() && (#[trigger] a[i]).name == name;
    assert(a.contains(a[i]));
    let j = b.index_of(a[i]);
    assert(b[j].name == name);
}

proof fn lemma_chain_found(
    g: Seq<(Seq<char>, Info)>,
    d: nat,
    analyzed: Seq<(Seq<char>, ())>,
    chain: Seq<Seq<char>>,
    wanted: Wanted,
    name: Seq<char>,
    symbol: SymbolId,
)
    requires
        distinct_keys(g),
        is_chain(g, chain),
        exports_itself(g, chain.last(), name, symbol),
        name != "default"@,
        !(wanted is Named),
        outcome(g, d, analyzed, chain[0], wanted).failure is None,
    ensures
        has_name(outcome(g, d, analyzed, chain[0], wanted).found, name),
        chain.len() == 1 ==> exists|f: Found|
            {
                &&& #[trigger] outcome(g, d, analyzed, chain[0], wanted).found.contains(f)
                &&& f.specifier == chain[0] && f.name == name && f.symbol_id == symbol
            },
    decreases chain.len(),
{
    let specifier = chain[0];
    let info = info_of(g, specifier);
    let now = with_entry(analyzed, specifier, ());
    let id = key_place(now, specifier);
    let below = (d - 1) as nat;
    let first = match default_symbol(info) {
        Some(symbol_id) => if wanted is AllWithDefault {
            seq![Found { specifier, module_id: id, name: "default"@, symbol_id }]
        } else {
            Seq::empty()
        },
        None => Seq::empty(),
    };
    let own = own_upto(info.exports, info.exports.len(), specifier, id);
    let start = Outcome { analyzed: now, found: first + own, failure: None };
    let n = info.re_exports.len();
    let all = stars_upto(g, below, specifier, n, start);
    assert(outcome(g, d, analyzed, specifier, wanted) == all);
    if chain.len() == 1 {
        let (i, k) = choose|i: int, k: int|
            #![trigger g[i].1.exports[k]]
            0 <= i < g.len() && g[i].0 == specifier && 0 <= k < g[i].1.exports.len()
                && g[i].1.exports[k] == (name, symbol);
        lemma_info(g, i);
        lemma_own_found(info.exports, info.exports.len(), specifier, id, k);
        let f = Found { specifier, module_id: id, name, symbol_id: symbol };
        let p = own.index_of(f);
        assert(start.found[first.len() + p] == f);
        assert(stars_upto(g, below, specifier, 0, start).found.contains(f));
        lemma_stars_keep(g, below, specifier, 0, n, start);
        assert(all.found.contains(f));
        let q = all.found.index_of(f);
        assert(all.found[q].name == name);
    } else {
        assert(exports_all_of(g, chain[0], chain[1]));
        let (i, j) = choose|i: int, j: int|
            #![trigger g[i].1.re_exports[j]]
            0 <= i < g.len() && g[i].0 == specifier && 0 <= j < g[i].1.re_exports.len()
                && is_dependency(g[i].1.dependencies, g[i].1.re_exports[j], chain[1]);
        lemma_info(g, i);
        lemma_resolved(info.dependencies, info.re_exports[j], chain[1]);
        let before = stars_upto(g, below, specifier, j as nat, start);
        let after = stars_upto(g, below, specifier, (j + 1) as nat, start);
        lemma_stars_keep(g, below, specifier, j as nat, n, start);
        lemma_stars_keep(g, below, specifier, (j + 1) as nat, n, start);
        let inner = outcome(g, below, before.analyzed, chain[1], Wanted::Star);
        let rest = chain.skip(1);
        assert forall|k: int| #![trigger rest[k]] 0 <= k < rest.len() - 1 implies exports_all_of(
            g,
            rest[k],
            rest[k + 1],
        ) by {
            assert(chain[k + 1] == rest[k]);
        }
        assert(rest.last() == chain.last());
        assert(inner.failure is None);
        lemma_chain_found(g, below, before.analyzed, rest, Wanted::Star, name, symbol);
        let k = choose|k: int| 0 <= k < inner.found.len() && (#[trigger] inner.found[k]).name
            == name;
        lemma_joined_keeps(before.found, inner.found, inner.found.len());
        assert(has_name(after.found, name));
        lemma_name_kept(after.found, all.found, name);
    }
}

/// Looking for all exports of a module finds one under each name, but for that of the
/// default export, that a module gives of which it exports everything, itself or through
/// others.
pub proof fn law_exports_are_found_through_others(
    g: Seq<(Seq<char>, Info)>,
    analyzed: Seq<(Seq<char>, ())>,
    chain: Seq<Seq<char>>,
    wanted: Wanted,
    name: Seq<char>,
    symbol: SymbolId,
)
    requires
        distinct_keys(g),
        is_chain(g, chain),
        exports_itself(g, chain.last(), name, symbol),
        name != "default"@,
        !(wanted is Named),
        exports_found(g, analyzed, chain[0], wanted).failure is None,
    ensures
        has_name(exports_found(g, analyzed, chain[0], wanted).found, name),
{
    lemma_chain_found(g, g.len(), analyzed, chain, wanted, name, symbol);
}

/// Looking for names finds each that the module itself exports.
proof fn lemma_named_found(
    g: Seq<(Seq<char>, Info)>,
    d: nat,
    specifier: Seq<char>,
    names: Seq<Seq<char>>,
    n: nat,
    start: Outcome,
    id: int,
    i: int,
)
    requires
        0 <= i < n <= names.len(),
        names[i] != "default"@ || info_of(g, specifier).default_export is None,
        has_key(info_of(g, specifier).exports, names[i]),
        names_upto(g, d, specifier, names, n, start, id).failure is None,
    ensures
        ({
            let exports = info_of(g, specifier).exports;
            names_upto(g, d, specifier, names, n, start, id).found.contains(
                Found {
                    specifier,
                    module_id: id,
                    name: names[i],
                    symbol_id: exports[key_place(exports, names[i])].1,
                },
            )
        }),
    decreases n,
{
    let info = info_of(g, specifier);
    let f = Found {
        specifier,
        module_id: id,
        name: names[i],
        symbol_id: info.exports[key_place(info.exports, names[i])].1,
    };
    let before = names_upto(g, d, specifier, names, (n - 1) as nat, start, id);
    let after = names_upto(g, d, specifier, names, n, start, id);
    if i < n - 1 {
        lemma_named_found(g, d, specifier, names, (n - 1) as nat, start, id, i);
        let k = before.found.index_of(f);
        assert(after.found[k] == f);
    } else {
        assert(after.found[after.found.len() - 1] == f);
    }
}

proof fn lemma_covered(
    g: Seq<(Seq<char>, Info)>,
    analyzed: Seq<(Seq<char>, ())>,
    to: Seq<char>,
    wanted: Wanted,
    name: Seq<char>,
    symbol: SymbolId,
) -> (f: Found)
    requires
        distinct_keys(g),
        covers(wanted, Some(name)) || !(wanted is Named),
        exports_itself(g, to, name, symbol),
        name != "default"@,
        forall|i: int| 0 <= i < g.len() ==> distinct_keys((#[trigger] g[i]).1.exports),
        exports_found(g, analyzed, to, wanted).failure is None,
    ensures
        exports_found(g, analyzed, to, wanted).found.contains(f),
        f.specifier == to,
        f.symbol_id == symbol,
{
    let info = info_of(g, to);
    let (i, k) = choose|i: int, k: int|
        #![trigger g[i].1.exports[k]]
        0 <= i < g.len() && g[i].0 == to && 0 <= k < g[i].1.exports.len() && g[i].1.exports[k] == (
            name,
            symbol,
        );
    lemma_info(g, i);
    lemma_key_place_is(info.exports, k);
    match wanted {
        Wanted::Named(names) => {
            let now = with_entry(analyzed, to, ());
            let id = key_place(now, to);
            let start = Outcome { analyzed: now, found: Seq::empty(), failure: None };
            let j = names.index_of(name);
            lemma_named_found(g, (g.len() - 1) as nat, to, names, names.len(), start, id, j);
            Found { specifier: to, module_id: id, name, symbol_id: symbol }
        },
        _ => {
            let chain = seq![to];
            lemma_chain_found(g, g.len(), analyzed, chain, wanted, name, symbol);
            choose|f: Found|
                {
                    &&& #[trigger] exports_found(g, analyzed, to, wanted).found.contains(f)
                    &&& f.specifier == to && f.name == name && f.symbol_id == symbol
                }
        },
    }
}

/// The symbol that a name in a module stands for.
pub open spec fn is_symbol_of(info: Info, id: (Seq<char>, u32), symbol: SymbolId) -> bool {
    exists|k: int| 0 <= k < info.ids.len() && #[trigger] info.ids[k] == (id, symbol)
}

/// Whatever a public symbol depends on in its module is public.
pub proof fn law_dependencies_of_public_symbols_are_public(
    g: Seq<(Seq<char>, Info)>,
    root: Seq<char>,
    s: TraceState,
    traced: Traced,
    i: int,
    a: int,
    id: (Seq<char>, u32),
    b: SymbolId,
)
    requires
        is_traced_by(g, root, s, traced),
        is_symbol(g, (i, a)),
        is_symbol(g, (i, b.0 as int)),
        distinct_keys(g[i].1.ids),
        is_public_at(traced.graph@, (i, a)),
        g[i].1.deps[a].contains(id),
        is_symbol_of(g[i].1, id, b),
    ensures
        is_public_at(traced.graph@, (i, b.0 as int)),
{
    let k = choose|k: int| 0 <= k < g[i].1.ids.len() && #[trigger] g[i].1.ids[k] == (id, b);
    lemma_key_place_is(g[i].1.ids, k);
    let x = (i, a);
    let y = (i, b.0 as int);
    assert(is_public_at(traced.graph@, x) <==> s.log.contains(x));
    let j = s.log.index_of(x);
    assert(needs(g, s.log[j], y));
    assert(is_public_at(traced.graph@, y) <==> s.log.contains(y));
}

/// What a public symbol is imported from is public: the symbol that the other module
/// itself exports under the name, or, where everything is imported, whatever it exports
/// but by default.
pub proof fn law_what_public_symbols_import_is_public(
    g: Seq<(Seq<char>, Info)>,
    root: Seq<char>,
    s: TraceState,
    traced: Traced,
    i: int,
    a: int,
    to: int,
    name: Seq<char>,
    b: SymbolId,
)
    requires
        is_traced_by(g, root, s, traced),
        distinct_keys(g),
        forall|i: int| 0 <= i < g.len() ==> distinct_keys((#[trigger] g[i]).1.exports),
        is_symbol(g, (i, a)),
        is_symbol(g, (to, b.0 as int)),
        is_public_at(traced.graph@, (i, a)),
        g[i].1.file_deps[a] is Some,
        g[i].1.file_deps[a].unwrap().name is None || g[i].1.file_deps[a].unwrap().name == Some(
            name,
        ),
        is_dependency(g[i].1.dependencies, g[i].1.file_deps[a].unwrap().specifier, g[to].0),
        name != "default"@,
        exports_itself(g, g[to].0, name, b),
    ensures
        is_public_at(traced.graph@, (to, b.0 as int)),
{
    let dep = g[i].1.file_deps[a].unwrap();
    let url = g[to].0;
    let x = (i, a);
    let y = (to, b.0 as int);
    lemma_resolved(g[i].1.dependencies, dep.specifier, url);
    assert(is_public_at(traced.graph@, x) <==> s.log.contains(x));
    let j = s.log.index_of(x);
    assert(asks(g, s.log[j], url, dep.name));
    assert(is_traced(g, s.log, url, dep.name));
    let (analyzed, wanted) = choose|analyzed: Seq<(Seq<char>, ())>, wanted: Wanted|
        covers(wanted, dep.name) && #[trigger] all_found(g, s.log, analyzed, url, wanted);
    let f = lemma_covered(g, analyzed, url, wanted, name, b);
    let out = exports_found(g, analyzed, url, wanted);
    let k = out.found.index_of(f);
    lemma_info(g, to);
    lemma_key_place_is(g, to);
    assert(s.log.contains(symbol_at(g, out.found[k])));
    assert(symbol_at(g, f) == y);
    assert(is_public_at(traced.graph@, y) <==> s.log.contains(y));
}

/// Whatever the root itself exports is public.
pub proof fn law_what_the_root_exports_is_public(
    g: Seq<(Seq<char>, Info)>,
    root: int,
    s: TraceState,
    traced: Traced,
    name: Seq<char>,
    b: SymbolId,
)
    requires
        0 <= root < g.len(),
        is_traced_by(g, g[root].0, s, traced),
        distinct_keys(g),
        forall|i: int| 0 <= i < g.len() ==> distinct_keys((#[trigger] g[i]).1.exports),
        is_symbol(g, (root, b.0 as int)),
        name != "default"@,
        exports_itself(g, g[root].0, name, b),
    ensures
        is_public_at(traced.graph@, (root, b.0 as int)),
{
    let url = g[root].0;
    let none = Seq::<(Seq<char>, ())>::empty();
    let f = lemma_covered(g, none, url, Wanted::AllWithDefault, name, b);
    let out = exports_found(g, none, url, Wanted::AllWithDefault);
    let k = out.found.index_of(f);
    let y = (root, b.0 as int);
    lemma_key_place_is(g, root);
    assert(s.log.contains(symbol_at(g, out.found[k])));
    assert(is_public_at(traced.graph@, y) <==> s.log.contains(y));
}

/// Whether a symbol is the default export of a module: the one that has no name, or else
/// the one that is exported as `default`.
pub open spec fn is_default_of(info: Info, symbol: SymbolId) -> bool {
    info.default_export == Some(symbol) || info.default_export is None && exists|k: int|
        0 <= k < info.exports.len() && #[trigger] info.exports[k] == ("default"@, symbol)
}

proof fn lemma_default_symbol(info: Info, symbol: SymbolId)
    requires
        is_default_of(info, symbol),
        distinct_keys(info.exports),
    ensures
        default_symbol(info) == Some(symbol),
        info.default_export is None ==> has_key(info.exports, "default"@) && info.exports[key_place(
            info.exports,
            "default"@,
        )].1 == symbol,
{
    if info.default_export is None {
        let k = choose|k: int|
            0 <= k < info.exports.len() && #[trigger] info.exports[k] == ("default"@, symbol);
        lemma_key_place_is(info.exports, k);
    }
}

proof fn lemma_default_found(
    g: Seq<(Seq<char>, Info)>,
    analyzed: Seq<(Seq<char>, ())>,
    i: int,
    symbol: SymbolId,
) -> (f: Found)
    requires
        distinct_keys(g),
        0 <= i < g.len(),
        distinct_keys(g[i].1.exports),
        is_default_of(g[i].1, symbol),
        exports_found(g, analyzed, g[i].0, Wanted::AllWithDefault).failure is None,
    ensures
        exports_found(g, analyzed, g[i].0, Wanted::AllWithDefault).found.contains(f),
        f.specifier == g[i].0,
        f.symbol_id == symbol,
{
    let specifier = g[i].0;
    lemma_info(g, i);
    let info = info_of(g, specifier);
    lemma_default_symbol(info, symbol);
    let now = with_entry(analyzed, specifier, ());
    let id = key_place(now, specifier);
    let f = Found { specifier, module_id: id, name: "default"@, symbol_id: symbol };
    let own = own_upto(info.exports, info.exports.len(), specifier, id);
    let start = Outcome { analyzed: now, found: seq![f] + own, failure: None };
    let below = (g.len() - 1) as nat;
    let n = info.re_exports.len();
    assert(exports_found(g, analyzed, specifier, Wanted::AllWithDefault) == stars_upto(
        g,
        below,
        specifier,
        n,
        start,
    ));
    assert(start.found[0] == f);
    assert(stars_upto(g, below, specifier, 0, start).found.contains(f));
    lemma_stars_keep(g, below, specifier, 0, n, start);
    f
}

/// The default export of the root is public.
pub proof fn law_the_default_export_of_the_root_is_public(
    g: Seq<(Seq<char>, Info)>,
    root: int,
    s: TraceState,
    traced: Traced,
    b: SymbolId,
)
    requires
        0 <= root < g.len(),
        is_traced_by(g, g[root].0, s, traced),
        distinct_keys(g),
        distinct_keys(g[root].1.exports),
        is_symbol(g, (root, b.0 as int)),
        is_default_of(g[root].1, b),
    ensures
        is_public_at(traced.graph@, (root, b.0 as int)),
{
    let none = Seq::<(Seq<char>, ())>::empty();
    let f = lemma_default_found(g, none, root, b);
    let out = exports_found(g, none, g[root].0, Wanted::AllWithDefault);
    let k = out.found.index_of(f);
    let y = (root, b.0 as int);
    lemma_key_place_is(g, root);
    assert(s.log.contains(symbol_at(g, out.found[k])));
    assert(is_public_at(traced.graph@, y) <==> s.log.contains(y));
}

proof fn lemma_default_named(
    g: Seq<(Seq<char>, Info)>,
    d: nat,
    specifier: Seq<char>,
    names: Seq<Seq<char>>,
    n: nat,
    start: Outcome,
    id: int,
    i: int,
    symbol: SymbolId,
)
    requires
        0 <= i < n <= names.len(),
        names[i] == "default"@,
        distinct_keys(info_of(g, specifier).exports),
        is_default_of(info_of(g, specifier), symbol),
        names_upto(g, d, specifier, names, n, start, id).failure is None,
    ensures
        names_upto(g, d, specifier, names, n, start, id).found.contains(
            Found { specifier, module_id: id, name: "default"@, symbol_id: symbol },
        ),
    decreases n,
{
    lemma_default_symbol(info_of(g, specifier), symbol);
    let f = Found { specifier, module_id: id, name: "default"@, symbol_id: symbol };
    let before = names_upto(g, d, specifier, names, (n - 1) as nat, start, id);
    let after = names_upto(g, d, specifier, names, n, start, id);
    if i < n - 1 {
        lemma_default_named(g, d, specifier, names, (n - 1) as nat, start, id, i, symbol);
        let k = before.found.index_of(f);
        assert(after.found[k] == f);
    } else {
        assert(after.found[after.found.len() - 1] == f);
    }
}

/// The default export of a module is public if a public symbol imports it, unless a public
/// symbol imports everything else of the module.
pub proof fn law_imported_default_exports_are_public(
    g: Seq<(Seq<char>, Info)>,
    root: Seq<char>,
    s: TraceState,
    traced: Traced,
    i: int,
    a: int,
    to: int,
    b: SymbolId,
)
    requires
        is_traced_by(g, root, s, traced),
        distinct_keys(g),
        0 <= to < g.len(),
        distinct_keys(g[to].1.exports),
        is_symbol(g, (i, a)),
        is_symbol(g, (to, b.0 as int)),
        is_public_at(traced.graph@, (i, a)),
        g[i].1.file_deps[a] is Some,
        g[i].1.file_deps[a].unwrap().name == Some("default"@),
        is_dependency(g[i].1.dependencies, g[i].1.file_deps[a].unwrap().specifier, g[to].0),
        forall|x: int, y: int|
            #![trigger g[x].1.file_deps[y]]
            is_symbol(g, (x, y)) && is_public_at(traced.graph@, (x, y))
                && g[x].1.file_deps[y] is Some && g[x].1.file_deps[y].unwrap().name is None
                ==> !is_dependency(
                g[x].1.dependencies,
                g[x].1.file_deps[y].unwrap().specifier,
                g[to].0,
            ),
        is_default_of(g[to].1, b),
    ensures
        is_public_at(traced.graph@, (to, b.0 as int)),
{
    let dep = g[i].1.file_deps[a].unwrap();
    let url = g[to].0;
    let x = (i, a);
    let y = (to, b.0 as int);
    lemma_resolved(g[i].1.dependencies, dep.specifier, url);
    assert(is_public_at(traced.graph@, x) <==> s.log.contains(x));
    let j = s.log.index_of(x);
    assert(asks(g, s.log[j], url, dep.name));
    if asked(g, s.log, url, None) {
        let k = choose|k: int| 0 <= k < s.log.len() && asks(g, #[trigger] s.log[k], url, None);
        let z = s.log[k];
        assert(s.log.contains(z));
        assert(is_symbol(g, z));
        assert(is_public_at(traced.graph@, z) <==> s.log.contains(z));
        let other = g[z.0].1.file_deps[z.1].unwrap();
        lemma_resolved(g[z.0].1.dependencies, other.specifier, url);
        assert(is_public_at(traced.graph@, (z.0, z.1)));
    }
    assert(is_traced(g, s.log, url, dep.name));
    let (analyzed, wanted) = choose|analyzed: Seq<(Seq<char>, ())>, wanted: Wanted|
        covers(wanted, dep.name) && #[trigger] all_found(g, s.log, analyzed, url, wanted);
    let out = exports_found(g, analyzed, url, wanted);
    lemma_info(g, to);
    let f = match wanted {
        Wanted::Named(names) => {
            let now = with_entry(analyzed, url, ());
            let id = key_place(now, url);
            let start = Outcome { analyzed: now, found: Seq::empty(), failure: None };
            let k = names.index_of("default"@);
            lemma_default_named(
                g,
                (g.len() - 1) as nat,
                url,
                names,
                names.len(),
                start,
                id,
                k,
                b,
            );
            Found { specifier: url, module_id: id, name: "default"@, symbol_id: b }
        },
        _ => lemma_default_found(g, analyzed, to, b),
    };
    let k = out.found.index_of(f);
    lemma_key_place_is(g, to);
    assert(s.log.contains(symbol_at(g, out.found[k])));
    assert(is_public_at(traced.graph@, y) <==> s.log.contains(y));
}

/// Whether a symbol is exported by the module in which it is, under some name or by
/// default.
pub open spec fn is_exported_by(info: Info, symbol: SymbolId) -> bool {
    info.default_export == Some(symbol) || exists|k: int|
        0 <= k < info.exports.len() && (#[trigger] info.exports[k]).1 == symbol
}

/// Whether everything that was found is exported by the module in which it is.
spec fn all_exported(g: Seq<(Seq<char>, Info)>, found: Seq<Found>) -> bool {
    forall|i: int|
        0 <= i < found.len() ==> has_key(g, (#[trigger] found[i]).specifier) && is_exported_by(
            info_of(g, found[i].specifier),
            found[i].symbol_id,
        )
}

proof fn lemma_all_exported_add(g: Seq<(Seq<char>, Info)>, a: Seq<Found>, b: Seq<Found>)
    requires
        all_exported(g, a),
        all_exported(g, b),
    ensures
        all_exported(g, a + b),
{
    let all = a + b;
    assert forall|i: int| 0 <= i < all.len() implies has_key(g, (#[trigger] all[i]).specifier)
        && is_exported_by(info_of(g, all[i].specifier), all[i].symbol_id) by {
        if i < a.len() {
            assert(all[i] == a[i]);
        } else {
            assert(all[i] == b[i - a.len()]);
        }
    }
}

proof fn lemma_own_exported(g: Seq<(Seq<char>, Info)>, specifier: Seq<char>, n: nat, id: int)
    requires
        has_key(g, specifier),
        n <= info_of(g, specifier).exports.len(),
    ensures
        all_exported(g, own_upto(info_of(g, specifier).exports, n, specifier, id)),
    decreases n,
{
    if n > 0 {
        lemma_own_exported(g, specifier, (n - 1) as nat, id);
        let exports = info_of(g, specifier).exports;
        let before = own_upto(exports, (n - 1) as nat, specifier, id);
        let f = Found {
            specifier,
            module_id: id,
            name: exports[n - 1].0,
            symbol_id: exports[n - 1].1,
        };
        assert(exports[n - 1].1 == f.symbol_id);
        assert(all_exported(g, seq![f]));
        lemma_all_exported_add(g, before, seq![f]);
        assert(before.push(f) =~= before + seq![f]);
    }
}

proof fn lemma_joined_exported(g: Seq<(Seq<char>, Info)>, a: Seq<Found>, b: Seq<Found>, n: nat)
    requires
        n <= b.len(),
        all_exported(g, a),
        all_exported(g, b),
    ensures
        all_exported(g, joined(a, b, n)),
{
    lemma_joined_keeps(a, b, n);
    let all = joined(a, b, n);
    assert forall|i: int| 0 <= i < all.len() implies has_key(g, (#[trigger] all[i]).specifier)
        && is_exported_by(info_of(g, all[i].specifier), all[i].symbol_id) by {
        assert(all.contains(all[i]));
        if a.contains(all[i]) {
            assert(a[a.index_of(all[i])] == all[i]);
        } else {
            assert(b[b.index_of(all[i])] == all[i]);
        }
    }
}

proof fn lemma_outcome_exported(
    g: Seq<(Seq<char>, Info)>,
    d: nat,
    analyzed: Seq<(Seq<char>, ())>,
    specifier: Seq<char>,
    wanted: Wanted,
)
    requires
        graph_wf(g),
        has_key(g, specifier),
    ensures
        all_exported(g, outcome(g, d, analyzed, specifier, wanted).found),
    decreases d, 0nat, 0nat,
{
    let info = info_of(g, specifier);
    if d > 0 && (has_key(analyzed, specifier) || info.diagnostic is None) {
        let below = (d - 1) as nat;
        let now = with_entry(analyzed, specifier, ());
        let id = key_place(now, specifier);
        match wanted {
            Wanted::Named(names) => {
                lemma_names_exported(
                    g,
                    below,
                    specifier,
                    names,
                    names.len(),
                    Outcome { analyzed: now, found: Seq::empty(), failure: None },
                    id,
                );
            },
            _ => {
                let first = match default_symbol(info) {
                    Some(symbol_id) => if wanted is AllWithDefault {
                        seq![Found { specifier, module_id: id, name: "default"@, symbol_id }]
                    } else {
                        Seq::empty()
                    },
                    None => Seq::empty(),
                };
                lemma_key_place(info.exports, "default"@);
                assert(all_exported(g, first)) by {
                    if first.len() > 0 && info.default_export is None {
                        let k = key_place(info.exports, "default"@);
                        assert(info.exports[k].1 == first[0].symbol_id);
                    }
                }
                let own = own_upto(info.exports, info.exports.len(), specifier, id);
                lemma_own_exported(g, specifier, info.exports.len(), id);
                lemma_all_exported_add(g, first, own);
                lemma_stars_exported(
                    g,
                    below,
                    specifier,
                    info.re_exports.len(),
                    Outcome { analyzed: now, found: first + own, failure: None },
                );
            },
        }
    }
}

proof fn lemma_stars_exported(
    g: Seq<(Seq<char>, Info)>,
    d: nat,
    specifier: Seq<char>,
    n: nat,
    start: Outcome,
)
    requires
        graph_wf(g),
        has_key(g, specifier),
        all_exported(g, start.found),
    ensures
        all_exported(g, stars_upto(g, d, specifier, n, start).found),
    decreases d, 1nat, n,
{
    if n > 0 {
        lemma_stars_exported(g, d, specifier, (n - 1) as nat, start);
        let before = stars_upto(g, d, specifier, (n - 1) as nat, start);
        let info = info_of(g, specifier);
        let text = info.re_exports[n - 1];
        if before.failure is None && resolves(info.dependencies, text) {
            let to = resolved(info.dependencies, text);
            lemma_target(g, specifier, text);
            lemma_outcome_exported(g, d, before.analyzed, to, Wanted::Star);
            let inner = outcome(g, d, before.analyzed, to, Wanted::Star);
            lemma_joined_exported(g, before.found, inner.found, inner.found.len());
        }
    }
}

proof fn lemma_first_exported(
    g: Seq<(Seq<char>, Info)>,
    d: nat,
    specifier: Seq<char>,
    name: Seq<char>,
    from: int,
    analyzed: Seq<(Seq<char>, ())>,
)
    requires
        graph_wf(g),
        has_key(g, specifier),
    ensures
        all_exported(g, first_star(g, d, specifier, name, from, analyzed).found),
    decreases d, 2nat, info_of(g, specifier).re_exports.len() - from,
{
    let info = info_of(g, specifier);
    if from < info.re_exports.len() {
        let text = info.re_exports[from];
        if resolves(info.dependencies, text) {
            let to = resolved(info.dependencies, text);
            lemma_target(g, specifier, text);
            lemma_outcome_exported(g, d, analyzed, to, Wanted::Named(seq![name]));
            let inner = outcome(g, d, analyzed, to, Wanted::Named(seq![name]));
            if inner.failure is None && inner.found.len() > 0 {
                assert(seq![inner.found[0]][0] == inner.found[0]);
            } else if inner.failure is None {
                lemma_first_exported(g, d, specifier, name, from + 1, inner.analyzed);
            }
        } else {
            lemma_first_exported(g, d, specifier, name, from + 1, analyzed);
        }
    }
}

proof fn lemma_names_exported(
    g: Seq<(Seq<char>, Info)>,
    d: nat,
    specifier: Seq<char>,
    names: Seq<Seq<char>>,
    n: nat,
    start: Outcome,
    id: int,
)
    requires
        graph_wf(g),
        has_key(g, specifier),
        all_exported(g, start.found),
    ensures
        all_exported(g, names_upto(g, d, specifier, names, n, start, id).found),
    decreases d, 3nat, n,
{
    if n > 0 {
        lemma_names_exported(g, d, specifier, names, (n - 1) as nat, start, id);
        let before = names_upto(g, d, specifier, names, (n - 1) as nat, start, id);
        let after = names_upto(g, d, specifier, names, n, start, id);
        let info = info_of(g, specifier);
        let name = names[n - 1];
        lemma_key_place(info.exports, name);
        lemma_first_exported(g, d, specifier, name, 0, before.analyzed);
        let inner = first_star(g, d, specifier, name, 0, before.analyzed);
        let more = after.found.skip(before.found.len() as int);
        if before.failure is None && name == "default"@ && info.default_export is Some {
            assert(more =~= seq![after.found.last()]);
            lemma_all_exported_add(g, before.found, more);
            assert(after.found =~= before.found + more);
        } else if before.failure is None && has_key(info.exports, name) {
            assert(more =~= seq![after.found.last()]);
            let k = key_place(info.exports, name);
            assert(info.exports[k].1 == after.found.last().symbol_id);
            lemma_all_exported_add(g, before.found, more);
            assert(after.found =~= before.found + more);
        } else if before.failure is None && name != "default"@ && inner.failure is None {
            lemma_all_exported_add(g, before.found, inner.found);
        }
    }
}

proof fn lemma_asked_there(
    g: Seq<(Seq<char>, Info)>,
    log: Seq<(int, int)>,
    to: Seq<char>,
    name: Option<Seq<char>>,
)
    requires
        graph_wf(g),
        forall|i: int| 0 <= i < log.len() ==> is_symbol(g, #[trigger] log[i]),
        asked(g, log, to, name),
    ensures
        has_key(g, to),
{
    let i = choose|i: int| 0 <= i < log.len() && asks(g, #[trigger] log[i], to, name);
    let x = log[i];
    let dep = g[x.0].1.file_deps[x.1].unwrap();
    lemma_key_place(g[x.0].1.dependencies, dep.specifier);
    let k = key_place(g[x.0].1.dependencies, dep.specifier);
    assert(has_key(g, g[x.0].1.dependencies[k].1));
}

proof fn lemma_reason(
    g: Seq<(Seq<char>, Info)>,
    root: Seq<char>,
    log: Seq<(int, int)>,
    y: (int, int),
    b: SymbolId,
)
    requires
        graph_wf(g),
        has_key(g, root),
        forall|i: int| 0 <= i < log.len() ==> is_symbol(g, #[trigger] log[i]),
        is_symbol(g, y),
        y.1 == b.0,
        justified(g, root, log, y),
    ensures
        is_exported_by(g[y.0].1, b) || exists|j: int|
            0 <= j < log.len() && needs(g, #[trigger] log[j], y),
{
    if !(exists|j: int| 0 <= j < log.len() && needs(g, #[trigger] log[j], y)) {
        let (analyzed, to, wanted) = choose|
            analyzed: Seq<(Seq<char>, ())>,
            to: Seq<char>,
            wanted: Wanted,
        |
            requested(g, root, log, to, wanted) && #[trigger] finds(g, analyzed, to, wanted, y);
        let out = exports_found(g, analyzed, to, wanted);
        let k = choose|k: int|
            0 <= k < out.found.len() && symbol_at(g, #[trigger] out.found[k]) == y;
        assert(has_key(g, to)) by {
            match wanted {
                Wanted::AllWithDefault => {},
                Wanted::Star => {
                    lemma_asked_there(g, log, to, None);
                },
                Wanted::Named(names) => {
                    if names.len() > 0 {
                        assert(asked(g, log, to, Some(names[0])));
                        lemma_asked_there(g, log, to, Some(names[0]));
                    }
                },
            }
        }
        lemma_outcome_exported(g, g.len(), analyzed, to, wanted);
        let f = out.found[k];
        assert(is_exported_by(info_of(g, f.specifier), f.symbol_id));
        assert(info_of(g, f.specifier) == g[y.0].1);
        assert(f.symbol_id == b);
    }
}

/// Whatever is public is so for a reason: its module exports it, or another public symbol
/// of its module depends on it.
pub proof fn law_public_symbols_have_a_reason(
    g: Seq<(Seq<char>, Info)>,
    root: Seq<char>,
    s: TraceState,
    traced: Traced,
    i: int,
    b: SymbolId,
)
    requires
        graph_wf(g),
        has_key(g, root),
        is_traced_by(g, root, s, traced),
        is_symbol(g, (i, b.0 as int)),
        is_public_at(traced.graph@, (i, b.0 as int)),
    ensures
        is_exported_by(g[i].1, b) || exists|a: int, id: (Seq<char>, u32)|
            {
                &&& is_symbol(g, (i, a)) && is_public_at(traced.graph@, (i, a))
                &&& #[trigger] g[i].1.deps[a].contains(id) && is_symbol_of(g[i].1, id, b)
            },
{
    let y = (i, b.0 as int);
    assert(is_public_at(traced.graph@, y) <==> s.log.contains(y));
    let k = s.log.index_of(y);
    let earlier = s.log.take(k);
    assert(justified(g, root, earlier, s.log[k]));
    assert forall|j: int| 0 <= j < earlier.len() implies is_symbol(g, #[trigger] earlier[j]) by {
        assert(earlier[j] == s.log[j]);
        assert(is_symbol(g, s.log[j]));
    }
    lemma_reason(g, root, earlier, y, b);
    if !is_exported_by(g[i].1, b) {
        let j = choose|j: int| 0 <= j < earlier.len() && needs(g, #[trigger] earlier[j], y);
        let x = earlier[j];
        assert(s.log[j] == x);
        assert(is_symbol(g, x));
        assert(s.log.contains(x));
        assert(is_public_at(traced.graph@, x) <==> s.log.contains(x));
        let id = choose|id: (Seq<char>, u32)| #[trigger]
            g[x.0].1.deps[x.1].contains(id) && has_key(g[x.0].1.ids, id) && g[x.0].1.ids[key_place(
                g[x.0].1.ids,
                id,
            )].1.0 == y.1;
        lemma_key_place(g[i].1.ids, id);
        let p = key_place(g[i].1.ids, id);
        assert(g[i].1.ids[p] == (id, b));
        assert(g[i].1.deps[x.1].contains(id));
        assert(is_public_at(traced.graph@, (i, x.1)));
    }
}

}
