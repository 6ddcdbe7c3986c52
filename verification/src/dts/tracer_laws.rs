//! What holds of the exports that are found.

use vstd::prelude::*;

use super::binder::SymbolId;
use super::tracer::{
    default_symbol, exports_found, first_star, has_name, info_of, joined, lemma_stars_stay_failed,
    names_upto, outcome, own_upto, stars_upto, Found, Info, Outcome, Wanted,
};
use crate::collections::{distinct_keys, has_key, key_place, lemma_key_place, with_entry};
use crate::pack_js::analyze::{resolved, resolves};

verus! {

/// The first of the exports that has the name, if one has it.
pub open spec fn first_named(found: Seq<Found>, name: Seq<char>) -> Seq<Found>
    decreases found.len(),
{
    if found.len() == 0 {
        Seq::empty()
    } else {
        let before = first_named(found.drop_last(), name);
        if before.len() > 0 {
            before
        } else if found.last().name == name {
            seq![found.last()]
        } else {
            Seq::empty()
        }
    }
}

proof fn lemma_first_named(found: Seq<Found>, name: Seq<char>)
    ensures
        first_named(found, name).len() <= 1,
        first_named(found, name).len() > 0 <==> has_name(found, name),
        first_named(found, name).len() > 0 ==> first_named(found, name)[0].name == name,
    decreases found.len(),
{
    if found.len() > 0 {
        let before = found.drop_last();
        lemma_first_named(before, name);
        if has_name(before, name) {
            let i = choose|i: int| 0 <= i < before.len() && (#[trigger] before[i]).name == name;
            assert(found[i].name == name);
        }
        if found.last().name == name {
            assert(found[found.len() - 1].name == name);
        }
        if has_name(found, name) {
            let i = choose|i: int| 0 <= i < found.len() && (#[trigger] found[i]).name == name;
            if i < before.len() {
                assert(before[i].name == name);
            }
        }
    }
}

proof fn lemma_first_push(found: Seq<Found>, f: Found, name: Seq<char>)
    ensures
        first_named(found.push(f), name) == if has_name(found, name) {
            first_named(found, name)
        } else if f.name == name {
            seq![f]
        } else {
            Seq::empty()
        },
        has_name(found.push(f), name) <==> has_name(found, name) || f.name == name,
{
    assert(found.push(f).drop_last() =~= found);
    lemma_first_named(found, name);
    lemma_first_named(found.push(f), name);
}

/// What is joined to exports changes nothing about a name that is among them.
proof fn lemma_joined(a: Seq<Found>, b: Seq<Found>, n: nat, name: Seq<char>)
    requires
        n <= b.len(),
        name != "default"@,
    ensures
        has_name(a, name) ==> first_named(joined(a, b, n), name) == first_named(a, name),
        !has_name(a, name) ==> first_named(joined(a, b, n), name) == first_named(
            b.take(n as int),
            name,
        ),
    decreases n,
{
    if n == 0 {
        lemma_first_named(a, name);
        lemma_first_named(b.take(0), name);
    } else {
        let m = (n - 1) as nat;
        lemma_joined(a, b, m, name);
        let before = joined(a, b, m);
        lemma_first_named(a, name);
        lemma_first_named(before, name);
        lemma_first_named(b.take(m as int), name);
        lemma_first_push(before, b[n - 1], name);
        lemma_first_push(b.take(m as int), b[n - 1], name);
        assert(b.take(n as int) =~= b.take(m as int).push(b[n - 1]));
    }
}

/// The modules that were analyzed are only added to.
proof fn lemma_entry_grows(s: Seq<(Seq<char>, ())>, key: Seq<char>)
    ensures
        s.is_prefix_of(with_entry(s, key, ())),
{
    lemma_key_place(s, key);
    let after = with_entry(s, key, ());
    if has_key(s, key) {
        assert(s[key_place(s, key)].1 == ());
        assert(after =~= s);
        assert(s =~= after.subrange(0, s.len() as int));
    } else {
        assert(s =~= after.subrange(0, s.len() as int));
    }
}

proof fn lemma_prefix_on<A>(a: Seq<A>, b: Seq<A>, c: Seq<A>)
    requires
        a.is_prefix_of(b),
        b.is_prefix_of(c),
    ensures
        a.is_prefix_of(c),
{
    assert(a == b.subrange(0, a.len() as int));
    assert(b == c.subrange(0, b.len() as int));
    assert(a =~= c.subrange(0, a.len() as int));
}

proof fn lemma_prefix_self<A>(a: Seq<A>)
    ensures
        a.is_prefix_of(a),
{
    assert(a =~= a.subrange(0, a.len() as int));
}

proof fn lemma_stars_grow(
    g: Seq<(Seq<char>, Info)>,
    depth: nat,
    specifier: Seq<char>,
    m: nat,
    n: nat,
    start: Outcome,
)
    requires
        m <= n,
    ensures
        stars_upto(g, depth, specifier, m, start).analyzed.is_prefix_of(
            stars_upto(g, depth, specifier, n, start).analyzed,
        ),
    decreases depth, 1nat, n,
{
    if m == n {
        lemma_prefix_self(stars_upto(g, depth, specifier, n, start).analyzed);
    } else {
        let k = (n - 1) as nat;
        lemma_stars_grow(g, depth, specifier, m, k, start);
        let before = stars_upto(g, depth, specifier, k, start);
        let after = stars_upto(g, depth, specifier, n, start);
        let info = info_of(g, specifier);
        let text = info.re_exports[n - 1];
        let to = resolved(info.dependencies, text);
        if before.failure is Some || !resolves(info.dependencies, text) {
        } else {
            lemma_star_grows(g, depth, before.analyzed, to);
            lemma_prefix_on(
                stars_upto(g, depth, specifier, m, start).analyzed,
                before.analyzed,
                after.analyzed,
            );
        }
    }
}

proof fn lemma_star_grows(
    g: Seq<(Seq<char>, Info)>,
    depth: nat,
    analyzed: Seq<(Seq<char>, ())>,
    specifier: Seq<char>,
)
    ensures
        analyzed.is_prefix_of(outcome(g, depth, analyzed, specifier, Wanted::Star).analyzed),
    decreases depth, 0nat, 0nat,
{
    let info = info_of(g, specifier);
    if depth == 0 || (!has_key(analyzed, specifier) && info.diagnostic is Some) {
        lemma_prefix_self(analyzed);
    } else {
        let below = (depth - 1) as nat;
        let now = with_entry(analyzed, specifier, ());
        let id = key_place(now, specifier);
        let start = star_start(info, specifier, now, id);
        lemma_entry_grows(analyzed, specifier);
        lemma_stars_grow(g, below, specifier, 0, info.re_exports.len(), start);
        lemma_prefix_on(
            analyzed,
            now,
            stars_upto(g, below, specifier, info.re_exports.len(), start).analyzed,
        );
        assert(outcome(g, depth, analyzed, specifier, Wanted::Star) == stars_upto(
            g,
            below,
            specifier,
            info.re_exports.len(),
            start,
        ));
    }
}

/// What a module itself has of all its exports but the default one.
spec fn star_start(
    info: Info,
    specifier: Seq<char>,
    now: Seq<(Seq<char>, ())>,
    id: int,
) -> Outcome {
    Outcome {
        analyzed: now,
        found: Seq::<Found>::empty() + own_upto(info.exports, info.exports.len(), specifier, id),
        failure: None,
    }
}

proof fn lemma_own(
    exports: Seq<(Seq<char>, SymbolId)>,
    n: nat,
    specifier: Seq<char>,
    id: int,
    name: Seq<char>,
)
    requires
        n <= exports.len(),
        name != "default"@,
    ensures
        first_named(own_upto(exports, n, specifier, id), name) == if key_place(exports, name) < n {
            seq![
                Found {
                    specifier,
                    module_id: id,
                    name,
                    symbol_id: exports[key_place(exports, name)].1,
                },
            ]
        } else {
            Seq::<Found>::empty()
        },
    decreases n,
{
    lemma_key_place(exports, name);
    if n > 0 {
        let m = (n - 1) as nat;
        lemma_own(exports, m, specifier, id, name);
        let before = own_upto(exports, m, specifier, id);
        lemma_first_named(before, name);
        let f = Found {
            specifier,
            module_id: id,
            name: exports[n - 1].0,
            symbol_id: exports[n - 1].1,
        };
        lemma_first_push(before, f, name);
        if key_place(exports, name) == n - 1 {
            assert(exports[n - 1].0 == name);
        } else if key_place(exports, name) > n - 1 {
            assert(exports[n - 1].0 != name);
        }
    }
}

/// How looking for one name goes with looking for all but the default export.
proof fn lemma_named(
    g: Seq<(Seq<char>, Info)>,
    depth: nat,
    analyzed: Seq<(Seq<char>, ())>,
    specifier: Seq<char>,
    name: Seq<char>,
)
    requires
        name != "default"@,
        outcome(g, depth, analyzed, specifier, Wanted::Star).failure is None,
    ensures
        ({
            let star = outcome(g, depth, analyzed, specifier, Wanted::Star);
            let named = outcome(g, depth, analyzed, specifier, Wanted::Named(seq![name]));
            &&& named.failure is None
            &&& named.found == first_named(star.found, name)
            &&& named.analyzed.is_prefix_of(star.analyzed)
            &&& named.found.len() == 0 ==> named.analyzed == star.analyzed
        }),
    decreases depth, 0nat, 0nat,
{
    let below = (depth - 1) as nat;
    let info = info_of(g, specifier);
    let now = with_entry(analyzed, specifier, ());
    let id = key_place(now, specifier);
    let start = star_start(info, specifier, now, id);
    let m = info.re_exports.len();
    let star = outcome(g, depth, analyzed, specifier, Wanted::Star);
    assert(star == stars_upto(g, below, specifier, m, start));
    let names = seq![name];
    let empty = Outcome { analyzed: now, found: Seq::empty(), failure: None };
    let named = outcome(g, depth, analyzed, specifier, Wanted::Named(names));
    assert(names_upto(g, below, specifier, names, 0, empty, id) == empty);
    assert(named == names_upto(g, below, specifier, names, 1, empty, id));
    assert(names[0] == name);
    let own = own_upto(info.exports, info.exports.len(), specifier, id);
    lemma_own(info.exports, info.exports.len(), specifier, id, name);
    assert(start.found =~= own);
    lemma_first_named(own, name);
    lemma_stars_grow(g, below, specifier, 0, m, start);
    assert(stars_upto(g, below, specifier, 0, start) == start);
    if has_key(info.exports, name) {
        lemma_stars_keep(g, below, specifier, 0, m, start, name);
        assert(named.found =~= first_named(own, name));
    } else {
        lemma_first(g, below, specifier, name, 0, start);
        assert(named.found =~= first_star(g, below, specifier, name, 0, now).found);
    }
}

/// A name that is among the exports stays what it is.
proof fn lemma_stars_keep(
    g: Seq<(Seq<char>, Info)>,
    depth: nat,
    specifier: Seq<char>,
    m: nat,
    n: nat,
    start: Outcome,
    name: Seq<char>,
)
    requires
        m <= n,
        name != "default"@,
        has_name(stars_upto(g, depth, specifier, m, start).found, name),
    ensures
        first_named(stars_upto(g, depth, specifier, n, start).found, name) == first_named(
            stars_upto(g, depth, specifier, m, start).found,
            name,
        ),
    decreases n,
{
    if m < n {
        let k = (n - 1) as nat;
        lemma_stars_keep(g, depth, specifier, m, k, start, name);
        let before = stars_upto(g, depth, specifier, k, start);
        lemma_first_named(stars_upto(g, depth, specifier, m, start).found, name);
        lemma_first_named(before.found, name);
        let info = info_of(g, specifier);
        let text = info.re_exports[n - 1];
        let to = resolved(info.dependencies, text);
        if before.failure is Some || !resolves(info.dependencies, text) {
        } else {
            let inner = outcome(g, depth, before.analyzed, to, Wanted::Star);
            lemma_joined(before.found, inner.found, inner.found.len(), name);
        }
    }
}

proof fn lemma_first(
    g: Seq<(Seq<char>, Info)>,
    depth: nat,
    specifier: Seq<char>,
    name: Seq<char>,
    i: nat,
    start: Outcome,
)
    requires
        name != "default"@,
        i <= info_of(g, specifier).re_exports.len(),
        stars_upto(g, depth, specifier, info_of(g, specifier).re_exports.len(), start).failure is None,
        !has_name(stars_upto(g, depth, specifier, i, start).found, name),
    ensures
        ({
            let m = info_of(g, specifier).re_exports.len();
            let star = stars_upto(g, depth, specifier, m, start);
            let here = stars_upto(g, depth, specifier, i, start);
            let first = first_star(g, depth, specifier, name, i as int, here.analyzed);
            &&& first.failure is None
            &&& first.found == first_named(star.found, name)
            &&& first.analyzed.is_prefix_of(star.analyzed)
            &&& first.found.len() == 0 ==> first.analyzed == star.analyzed
        }),
    decreases depth, 1nat, info_of(g, specifier).re_exports.len() - i,
{
    let info = info_of(g, specifier);
    let m = info.re_exports.len();
    let star = stars_upto(g, depth, specifier, m, start);
    let here = stars_upto(g, depth, specifier, i, start);
    if here.failure is Some {
        lemma_stars_stay_failed(g, depth, specifier, i, m, start);
    }
    if i == m {
        lemma_first_named(star.found, name);
        lemma_prefix_self(star.analyzed);
        assert(first_named(star.found, name) =~= Seq::<Found>::empty());
    } else {
        let next = stars_upto(g, depth, specifier, i + 1, start);
        if next.failure is Some {
            lemma_stars_stay_failed(g, depth, specifier, i + 1, m, start);
        }
        let text = info.re_exports[i as int];
        let to = resolved(info.dependencies, text);
        if !resolves(info.dependencies, text) {
            assert(next == here);
            lemma_first(g, depth, specifier, name, i + 1, start);
        } else {
            let inner = outcome(g, depth, here.analyzed, to, Wanted::Star);
            lemma_named(g, depth, here.analyzed, to, name);
            let found = outcome(g, depth, here.analyzed, to, Wanted::Named(seq![name]));
            lemma_joined(here.found, inner.found, inner.found.len(), name);
            assert(inner.found.take(inner.found.len() as int) =~= inner.found);
            lemma_first_named(next.found, name);
            lemma_first_named(inner.found, name);
            if found.found.len() == 0 {
                lemma_first(g, depth, specifier, name, i + 1, start);
            } else {
                lemma_stars_keep(g, depth, specifier, i + 1, m, start, name);
                lemma_stars_grow(g, depth, specifier, i + 1, m, start);
                lemma_prefix_on(found.analyzed, inner.analyzed, star.analyzed);
                assert(seq![found.found[0]] =~= found.found);
            }
        }
    }
}

/// Looking for one name, other than that of the default export, gives the entry of that
/// name among all exports, if there is one.
pub proof fn law_a_name_is_found_among_all(
    g: Seq<(Seq<char>, Info)>,
    analyzed: Seq<(Seq<char>, ())>,
    specifier: Seq<char>,
    name: Seq<char>,
)
    requires
        name != "default"@,
        exports_found(g, analyzed, specifier, Wanted::Star).failure is None,
    ensures
        exports_found(g, analyzed, specifier, Wanted::Named(seq![name])).failure is None,
        exports_found(g, analyzed, specifier, Wanted::Named(seq![name])).found == first_named(
            exports_found(g, analyzed, specifier, Wanted::Star).found,
            name,
        ),
{
    lemma_named(g, g.len(), analyzed, specifier, name);
}

proof fn lemma_joined_behind(d: Seq<Found>, a: Seq<Found>, b: Seq<Found>, n: nat)
    requires
        n <= b.len(),
        forall|i: int| 0 <= i < d.len() ==> (#[trigger] d[i]).name == "default"@,
    ensures
        joined(d + a, b, n) == d + joined(a, b, n),
    decreases n,
{
    if n > 0 {
        let m = (n - 1) as nat;
        lemma_joined_behind(d, a, b, m);
        let behind = joined(a, b, m);
        let f = b[n - 1];
        if f.name != "default"@ {
            assert(has_name(d + behind, f.name) <==> has_name(behind, f.name)) by {
                if has_name(behind, f.name) {
                    let i = choose|i: int|
                        0 <= i < behind.len() && (#[trigger] behind[i]).name == f.name;
                    assert((d + behind)[d.len() + i].name == f.name);
                }
                if has_name(d + behind, f.name) {
                    let i = choose|i: int|
                        0 <= i < (d + behind).len() && (#[trigger] (d + behind)[i]).name == f.name;
                    if i < d.len() {
                        assert((d + behind)[i] == d[i]);
                    } else {
                        assert(behind[i - d.len()].name == f.name);
                    }
                }
            }
            assert((d + behind).push(f) =~= d + behind.push(f));
        }
    }
}

proof fn lemma_stars_behind(
    g: Seq<(Seq<char>, Info)>,
    depth: nat,
    specifier: Seq<char>,
    n: nat,
    d: Seq<Found>,
    start: Outcome,
)
    requires
        forall|i: int| 0 <= i < d.len() ==> (#[trigger] d[i]).name == "default"@,
    ensures
        ({
            let behind = stars_upto(g, depth, specifier, n, start);
            stars_upto(g, depth, specifier, n, Outcome { found: d + start.found, ..start }) == (
            Outcome { found: d + behind.found, ..behind })
        }),
    decreases n,
{
    if n > 0 {
        lemma_stars_behind(g, depth, specifier, (n - 1) as nat, d, start);
        let before = stars_upto(g, depth, specifier, (n - 1) as nat, start);
        let info = info_of(g, specifier);
        let to = resolved(info.dependencies, info.re_exports[n - 1]);
        let inner = outcome(g, depth, before.analyzed, to, Wanted::Star);
        lemma_joined_behind(d, before.found, inner.found, inner.found.len());
    }
}

/// The default export of a module, as it is found.
pub open spec fn default_found(
    g: Seq<(Seq<char>, Info)>,
    analyzed: Seq<(Seq<char>, ())>,
    specifier: Seq<char>,
) -> Seq<Found> {
    match default_symbol(info_of(g, specifier)) {
        Some(symbol_id) => seq![
            Found {
                specifier,
                module_id: key_place(with_entry(analyzed, specifier, ()), specifier),
                name: "default"@,
                symbol_id,
            },
        ],
        None => Seq::empty(),
    }
}

/// Looking for all exports gives the default export and then all but it, unless it
/// fails, and it fails as looking for all but the default export does.
pub proof fn law_all_exports_are_the_default_and_the_others(
    g: Seq<(Seq<char>, Info)>,
    analyzed: Seq<(Seq<char>, ())>,
    specifier: Seq<char>,
)
    ensures
        ({
            let all = exports_found(g, analyzed, specifier, Wanted::AllWithDefault);
            let star = exports_found(g, analyzed, specifier, Wanted::Star);
            &&& all.failure == star.failure
            &&& all.analyzed == star.analyzed
            &&& star.failure is None ==> all.found == default_found(g, analyzed, specifier)
                + star.found
        }),
{
    let info = info_of(g, specifier);
    if g.len() > 0 && (has_key(analyzed, specifier) || info.diagnostic is None) {
        let below = (g.len() - 1) as nat;
        let now = with_entry(analyzed, specifier, ());
        let id = key_place(now, specifier);
        let d = default_found(g, analyzed, specifier);
        let start = star_start(info, specifier, now, id);
        lemma_stars_behind(g, below, specifier, info.re_exports.len(), d, start);
        let own = own_upto(info.exports, info.exports.len(), specifier, id);
        assert(d + start.found =~= d + own);
        assert(exports_found(g, analyzed, specifier, Wanted::AllWithDefault) == stars_upto(
            g,
            below,
            specifier,
            info.re_exports.len(),
            Outcome { found: d + start.found, ..start },
        ));
    }
}

/// Whether the names are different, and none is that of the default export.
pub open spec fn names_differ(found: Seq<Found>) -> bool {
    &&& forall|i: int| 0 <= i < found.len() ==> (#[trigger] found[i]).name != "default"@
    &&& forall|i: int, j: int|
        0 <= i < j < found.len() ==> (#[trigger] found[i]).name != (#[trigger] found[j]).name
}

proof fn lemma_differ_push(found: Seq<Found>, f: Found)
    requires
        names_differ(found),
        f.name != "default"@,
        !has_name(found, f.name),
    ensures
        names_differ(found.push(f)),
{
    let all = found.push(f);
    assert forall|i: int, j: int| 0 <= i < j < all.len() implies (#[trigger] all[i]).name != (
    #[trigger] all[j]).name by {
        assert(all[i] == found[i]);
        if j < found.len() {
            assert(all[j] == found[j]);
        }
    }
    assert forall|i: int| 0 <= i < all.len() implies (#[trigger] all[i]).name != "default"@ by {
        if i < found.len() {
            assert(all[i] == found[i]);
        }
    }
}

proof fn lemma_joined_differ(a: Seq<Found>, b: Seq<Found>, n: nat)
    requires
        n <= b.len(),
        names_differ(a),
    ensures
        names_differ(joined(a, b, n)),
    decreases n,
{
    if n > 0 {
        lemma_joined_differ(a, b, (n - 1) as nat);
        let before = joined(a, b, (n - 1) as nat);
        if b[n - 1].name != "default"@ && !has_name(before, b[n - 1].name) {
            lemma_differ_push(before, b[n - 1]);
        }
    }
}

proof fn lemma_own_differ(
    exports: Seq<(Seq<char>, SymbolId)>,
    n: nat,
    specifier: Seq<char>,
    id: int,
)
    requires
        n <= exports.len(),
        distinct_keys(exports),
    ensures
        names_differ(own_upto(exports, n, specifier, id)),
        forall|i: int|
            0 <= i < own_upto(exports, n, specifier, id).len() ==> exists|j: int|
                0 <= j < n && (#[trigger] own_upto(exports, n, specifier, id)[i]).name == (
                #[trigger] exports[j]).0,
    decreases n,
{
    if n > 0 {
        let m = (n - 1) as nat;
        lemma_own_differ(exports, m, specifier, id);
        let before = own_upto(exports, m, specifier, id);
        let after = own_upto(exports, n, specifier, id);
        let f = Found {
            specifier,
            module_id: id,
            name: exports[n - 1].0,
            symbol_id: exports[n - 1].1,
        };
        if exports[n - 1].0 != "default"@ {
            assert(!has_name(before, f.name)) by {
                if has_name(before, f.name) {
                    let i = choose|i: int|
                        0 <= i < before.len() && (#[trigger] before[i]).name == f.name;
                    let j = choose|j: int|
                        0 <= j < m && before[i].name == (#[trigger] exports[j]).0;
                    assert(exports[j].0 != exports[n - 1].0);
                }
            }
            lemma_differ_push(before, f);
        }
        assert forall|i: int| 0 <= i < after.len() implies exists|j: int|
            0 <= j < n && (#[trigger] after[i]).name == (#[trigger] exports[j]).0 by {
            if i < before.len() {
                assert(after[i] == before[i]);
                let j = choose|j: int|
                    0 <= j < m && before[i].name == (#[trigger] exports[j]).0;
                assert(after[i].name == exports[j].0);
            } else {
                assert(after[i].name == exports[n - 1].0);
            }
        }
    }
}

proof fn lemma_stars_differ(
    g: Seq<(Seq<char>, Info)>,
    depth: nat,
    specifier: Seq<char>,
    n: nat,
    start: Outcome,
)
    requires
        names_differ(start.found),
    ensures
        names_differ(stars_upto(g, depth, specifier, n, start).found),
    decreases n,
{
    if n > 0 {
        lemma_stars_differ(g, depth, specifier, (n - 1) as nat, start);
        let before = stars_upto(g, depth, specifier, (n - 1) as nat, start);
        let info = info_of(g, specifier);
        let to = resolved(info.dependencies, info.re_exports[n - 1]);
        let inner = outcome(g, depth, before.analyzed, to, Wanted::Star);
        lemma_joined_differ(before.found, inner.found, inner.found.len());
    }
}

/// Among all exports but the default one no name stands twice, and none is that of the
/// default export.
pub proof fn law_names_of_all_exports_differ(
    g: Seq<(Seq<char>, Info)>,
    analyzed: Seq<(Seq<char>, ())>,
    specifier: Seq<char>,
)
    requires
        distinct_keys(info_of(g, specifier).exports),
    ensures
        names_differ(exports_found(g, analyzed, specifier, Wanted::Star).found),
{
    let info = info_of(g, specifier);
    let now = with_entry(analyzed, specifier, ());
    let id = key_place(now, specifier);
    let start = star_start(info, specifier, now, id);
    let own = own_upto(info.exports, info.exports.len(), specifier, id);
    lemma_own_differ(info.exports, info.exports.len(), specifier, id);
    assert(start.found =~= own);
    if g.len() > 0 {
        lemma_stars_differ(
            g,
            (g.len() - 1) as nat,
            specifier,
            info.re_exports.len(),
            start,
        );
    }
}

}
