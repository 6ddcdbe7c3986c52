//! How deep a search for exports goes.

use vstd::prelude::*;

use super::binder::SymbolId;
use super::tracer::{
    all_clean, ends, exports_found, first_star, graph_wf, info_of, is_found, is_needed, is_run,
    is_symbol, lemma_clean_entry, lemma_first_valid, lemma_outcome_valid, lemma_target,
    names_upto, needs, outcome, outcome_valid, own_upto, requests_end, run_hangs, run_step,
    stars_upto, symbol_at, wants_from, Failure, Info, Outcome, TraceState, Wanted,
};
use super::tracer_laws::default_found;
use crate::collections::{has_key, key_place, lemma_key_place, with_entry};
use crate::pack_js::analyze::{resolved, resolves};

verus! {

/// Whether a search stopped because it went too deep.
pub open spec fn too_deep(o: Outcome) -> bool {
    o.failure == Some(Failure::TooDeep)
}

/// What a module itself has of its exports, where all of them are wanted, or all but the
/// default one.
spec fn all_start(
    g: Seq<(Seq<char>, Info)>,
    analyzed: Seq<(Seq<char>, ())>,
    specifier: Seq<char>,
    wanted: Wanted,
) -> Outcome {
    let info = info_of(g, specifier);
    let now = with_entry(analyzed, specifier, ());
    let first = if wanted is AllWithDefault {
        default_found(g, analyzed, specifier)
    } else {
        Seq::empty()
    };
    Outcome {
        analyzed: now,
        found: first + own_upto(
            info.exports,
            info.exports.len(),
            specifier,
            key_place(now, specifier),
        ),
        failure: None,
    }
}

/// What is known before any name is looked for.
spec fn names_start(analyzed: Seq<(Seq<char>, ())>, specifier: Seq<char>) -> Outcome {
    Outcome {
        analyzed: with_entry(analyzed, specifier, ()),
        found: Seq::empty(),
        failure: None,
    }
}

/// The outcome of a search that looks into the module.
proof fn lemma_opened(
    g: Seq<(Seq<char>, Info)>,
    depth: nat,
    analyzed: Seq<(Seq<char>, ())>,
    specifier: Seq<char>,
    wanted: Wanted,
)
    requires
        depth > 0,
        has_key(analyzed, specifier) || info_of(g, specifier).diagnostic is None,
    ensures
        outcome(g, depth, analyzed, specifier, wanted) == match wanted {
            Wanted::Named(names) => names_upto(
                g,
                (depth - 1) as nat,
                specifier,
                names,
                names.len(),
                names_start(analyzed, specifier),
                key_place(with_entry(analyzed, specifier, ()), specifier),
            ),
            _ => stars_upto(
                g,
                (depth - 1) as nat,
                specifier,
                info_of(g, specifier).re_exports.len(),
                all_start(g, analyzed, specifier, wanted),
            ),
        },
{
}

proof fn lemma_deeper_outcome(
    g: Seq<(Seq<char>, Info)>,
    d: nat,
    e: nat,
    analyzed: Seq<(Seq<char>, ())>,
    specifier: Seq<char>,
    wanted: Wanted,
)
    requires
        d <= e,
        !too_deep(outcome(g, d, analyzed, specifier, wanted)),
    ensures
        outcome(g, e, analyzed, specifier, wanted) == outcome(g, d, analyzed, specifier, wanted),
    decreases d, 0nat, 0nat,
{
    let info = info_of(g, specifier);
    if has_key(analyzed, specifier) || info.diagnostic is None {
        let below = (d - 1) as nat;
        let under = (e - 1) as nat;
        lemma_opened(g, d, analyzed, specifier, wanted);
        lemma_opened(g, e, analyzed, specifier, wanted);
        match wanted {
            Wanted::Named(names) => {
                lemma_deeper_names(
                    g,
                    below,
                    under,
                    specifier,
                    names,
                    names.len(),
                    names_start(analyzed, specifier),
                    key_place(with_entry(analyzed, specifier, ()), specifier),
                );
            },
            _ => {
                lemma_deeper_stars(
                    g,
                    below,
                    under,
                    specifier,
                    info.re_exports.len(),
                    all_start(g, analyzed, specifier, wanted),
                );
            },
        }
    }
}

proof fn lemma_deeper_stars(
    g: Seq<(Seq<char>, Info)>,
    d: nat,
    e: nat,
    specifier: Seq<char>,
    n: nat,
    start: Outcome,
)
    requires
        d <= e,
        !too_deep(stars_upto(g, d, specifier, n, start)),
    ensures
        stars_upto(g, e, specifier, n, start) == stars_upto(g, d, specifier, n, start),
    decreases d, 1nat, n,
{
    if n > 0 {
        let m = (n - 1) as nat;
        let before = stars_upto(g, d, specifier, m, start);
        lemma_deeper_stars(g, d, e, specifier, m, start);
        let info = info_of(g, specifier);
        let text = info.re_exports[n - 1];
        let to = resolved(info.dependencies, text);
        if before.failure is None && resolves(info.dependencies, text) {
            lemma_deeper_outcome(g, d, e, before.analyzed, to, Wanted::Star);
        }
    }
}

proof fn lemma_deeper_names(
    g: Seq<(Seq<char>, Info)>,
    d: nat,
    e: nat,
    specifier: Seq<char>,
    names: Seq<Seq<char>>,
    n: nat,
    start: Outcome,
    id: int,
)
    requires
        d <= e,
        !too_deep(names_upto(g, d, specifier, names, n, start, id)),
    ensures
        names_upto(g, e, specifier, names, n, start, id) == names_upto(
            g,
            d,
            specifier,
            names,
            n,
            start,
            id,
        ),
    decreases d, 3nat, n,
{
    if n > 0 {
        let m = (n - 1) as nat;
        let before = names_upto(g, d, specifier, names, m, start, id);
        lemma_deeper_names(g, d, e, specifier, names, m, start, id);
        let info = info_of(g, specifier);
        let name = names[n - 1];
        if before.failure is None && !(name == "default"@ && info.default_export is Some)
            && !has_key(info.exports, name) && name != "default"@ {
            lemma_deeper_first(g, d, e, specifier, name, 0, before.analyzed);
        }
    }
}

proof fn lemma_deeper_first(
    g: Seq<(Seq<char>, Info)>,
    d: nat,
    e: nat,
    specifier: Seq<char>,
    name: Seq<char>,
    from: int,
    analyzed: Seq<(Seq<char>, ())>,
)
    requires
        d <= e,
        !too_deep(first_star(g, d, specifier, name, from, analyzed)),
    ensures
        first_star(g, e, specifier, name, from, analyzed) == first_star(
            g,
            d,
            specifier,
            name,
            from,
            analyzed,
        ),
    decreases d, 2nat, info_of(g, specifier).re_exports.len() - from,
{
    let info = info_of(g, specifier);
    if from < info.re_exports.len() {
        let text = info.re_exports[from];
        let to = resolved(info.dependencies, text);
        if resolves(info.dependencies, text) {
            let inner = outcome(g, d, analyzed, to, Wanted::Named(seq![name]));
            lemma_deeper_outcome(g, d, e, analyzed, to, Wanted::Named(seq![name]));
            if inner.failure is None && inner.found.len() == 0 {
                lemma_deeper_first(g, d, e, specifier, name, from + 1, inner.analyzed);
            }
        } else {
            lemma_deeper_first(g, d, e, specifier, name, from + 1, analyzed);
        }
    }
}

/// A search that ends comes to the same where it may go deeper.
pub proof fn law_deeper_searches_find_the_same(
    g: Seq<(Seq<char>, Info)>,
    d: nat,
    e: nat,
    analyzed: Seq<(Seq<char>, ())>,
    specifier: Seq<char>,
    wanted: Wanted,
)
    requires
        d <= e,
        !too_deep(outcome(g, d, analyzed, specifier, wanted)),
    ensures
        outcome(g, e, analyzed, specifier, wanted) == outcome(g, d, analyzed, specifier, wanted),
{
    lemma_deeper_outcome(g, d, e, analyzed, specifier, wanted);
}

/// Why a search stops, and how many exports it finds by names, does not depend on what
/// was analyzed before.
proof fn lemma_alike_outcome(
    g: Seq<(Seq<char>, Info)>,
    d: nat,
    a: Seq<(Seq<char>, ())>,
    b: Seq<(Seq<char>, ())>,
    specifier: Seq<char>,
    wanted: Wanted,
)
    requires
        graph_wf(g),
        has_key(g, specifier),
        all_clean(g, a),
        all_clean(g, b),
    ensures
        outcome(g, d, a, specifier, wanted).failure == outcome(
            g,
            d,
            b,
            specifier,
            wanted,
        ).failure,
        wanted is Named ==> outcome(g, d, a, specifier, wanted).found.len() == outcome(
            g,
            d,
            b,
            specifier,
            wanted,
        ).found.len(),
    decreases d, 0nat, 0nat,
{
    let info = info_of(g, specifier);
    lemma_key_place(a, specifier);
    lemma_key_place(b, specifier);
    if d > 0 && info.diagnostic is None {
        let below = (d - 1) as nat;
        lemma_opened(g, d, a, specifier, wanted);
        lemma_opened(g, d, b, specifier, wanted);
        lemma_clean_entry(g, a, specifier);
        lemma_clean_entry(g, b, specifier);
        match wanted {
            Wanted::Named(names) => {
                lemma_alike_names(
                    g,
                    below,
                    specifier,
                    names,
                    names.len(),
                    names_start(a, specifier),
                    names_start(b, specifier),
                    key_place(with_entry(a, specifier, ()), specifier),
                    key_place(with_entry(b, specifier, ()), specifier),
                );
            },
            _ => {
                lemma_alike_stars(
                    g,
                    below,
                    specifier,
                    info.re_exports.len(),
                    all_start(g, a, specifier, wanted),
                    all_start(g, b, specifier, wanted),
                );
            },
        }
    }
}

proof fn lemma_alike_stars(
    g: Seq<(Seq<char>, Info)>,
    d: nat,
    specifier: Seq<char>,
    n: nat,
    a: Outcome,
    b: Outcome,
)
    requires
        graph_wf(g),
        has_key(g, specifier),
        all_clean(g, a.analyzed),
        all_clean(g, b.analyzed),
        a.failure == b.failure,
    ensures
        all_clean(g, stars_upto(g, d, specifier, n, a).analyzed),
        all_clean(g, stars_upto(g, d, specifier, n, b).analyzed),
        stars_upto(g, d, specifier, n, a).failure == stars_upto(g, d, specifier, n, b).failure,
    decreases d, 1nat, n,
{
    if n > 0 {
        let m = (n - 1) as nat;
        lemma_alike_stars(g, d, specifier, m, a, b);
        let one = stars_upto(g, d, specifier, m, a).analyzed;
        let two = stars_upto(g, d, specifier, m, b).analyzed;
        let info = info_of(g, specifier);
        let text = info.re_exports[n - 1];
        let to = resolved(info.dependencies, text);
        if resolves(info.dependencies, text) {
            lemma_target(g, specifier, text);
            lemma_alike_outcome(g, d, one, two, to, Wanted::Star);
            lemma_outcome_valid(g, d, one, to, Wanted::Star);
            lemma_outcome_valid(g, d, two, to, Wanted::Star);
        }
    }
}

proof fn lemma_alike_names(
    g: Seq<(Seq<char>, Info)>,
    d: nat,
    specifier: Seq<char>,
    names: Seq<Seq<char>>,
    n: nat,
    a: Outcome,
    b: Outcome,
    a_id: int,
    b_id: int,
)
    requires
        graph_wf(g),
        has_key(g, specifier),
        all_clean(g, a.analyzed),
        all_clean(g, b.analyzed),
        a.failure == b.failure,
        a.found.len() == b.found.len(),
    ensures
        all_clean(g, names_upto(g, d, specifier, names, n, a, a_id).analyzed),
        all_clean(g, names_upto(g, d, specifier, names, n, b, b_id).analyzed),
        names_upto(g, d, specifier, names, n, a, a_id).failure == names_upto(
            g,
            d,
            specifier,
            names,
            n,
            b,
            b_id,
        ).failure,
        names_upto(g, d, specifier, names, n, a, a_id).found.len() == names_upto(
            g,
            d,
            specifier,
            names,
            n,
            b,
            b_id,
        ).found.len(),
    decreases d, 3nat, n,
{
    if n > 0 {
        let m = (n - 1) as nat;
        lemma_alike_names(g, d, specifier, names, m, a, b, a_id, b_id);
        let one = names_upto(g, d, specifier, names, m, a, a_id).analyzed;
        let two = names_upto(g, d, specifier, names, m, b, b_id).analyzed;
        lemma_alike_first(g, d, specifier, names[n - 1], 0, one, two);
        lemma_first_valid(g, d, specifier, names[n - 1], 0, one);
        lemma_first_valid(g, d, specifier, names[n - 1], 0, two);
    }
}

proof fn lemma_alike_first(
    g: Seq<(Seq<char>, Info)>,
    d: nat,
    specifier: Seq<char>,
    name: Seq<char>,
    from: int,
    a: Seq<(Seq<char>, ())>,
    b: Seq<(Seq<char>, ())>,
)
    requires
        graph_wf(g),
        has_key(g, specifier),
        all_clean(g, a),
        all_clean(g, b),
    ensures
        first_star(g, d, specifier, name, from, a).failure == first_star(
            g,
            d,
            specifier,
            name,
            from,
            b,
        ).failure,
        first_star(g, d, specifier, name, from, a).found.len() == first_star(
            g,
            d,
            specifier,
            name,
            from,
            b,
        ).found.len(),
    decreases d, 2nat, info_of(g, specifier).re_exports.len() - from,
{
    let info = info_of(g, specifier);
    if from < info.re_exports.len() {
        let text = info.re_exports[from];
        let to = resolved(info.dependencies, text);
        if resolves(info.dependencies, text) {
            let wanted = Wanted::Named(seq![name]);
            lemma_target(g, specifier, text);
            lemma_alike_outcome(g, d, a, b, to, wanted);
            lemma_outcome_valid(g, d, a, to, wanted);
            lemma_outcome_valid(g, d, b, to, wanted);
            let one = outcome(g, d, a, to, wanted).analyzed;
            let two = outcome(g, d, b, to, wanted).analyzed;
            lemma_alike_first(g, d, specifier, name, from + 1, one, two);
        } else {
            lemma_alike_first(g, d, specifier, name, from + 1, a, b);
        }
    }
}

/// Whether a search needs just this depth, if nothing was analyzed before.
spec fn needs_depth(
    g: Seq<(Seq<char>, Info)>,
    specifier: Seq<char>,
    wanted: Wanted,
    d: nat,
) -> bool {
    &&& d > 0
    &&& !too_deep(outcome(g, d, Seq::empty(), specifier, wanted))
    &&& too_deep(outcome(g, (d - 1) as nat, Seq::empty(), specifier, wanted))
}

/// Of the modules all of whose exports one exports, one needs the depth that is too
/// small for all of them.
proof fn lemma_star_too_deep(
    g: Seq<(Seq<char>, Info)>,
    d: nat,
    specifier: Seq<char>,
    n: nat,
    start: Outcome,
) -> (to: Seq<char>)
    requires
        graph_wf(g),
        has_key(g, specifier),
        all_clean(g, start.analyzed),
        start.failure is None,
        too_deep(stars_upto(g, d, specifier, n, start)),
        !too_deep(stars_upto(g, d + 1, specifier, n, start)),
    ensures
        has_key(g, to),
        needs_depth(g, to, Wanted::Star, d + 1),
    decreases n,
{
    let m = (n - 1) as nat;
    let before = stars_upto(g, d, specifier, m, start);
    if too_deep(before) {
        lemma_star_too_deep(g, d, specifier, m, start)
    } else {
        lemma_deeper_stars(g, d, d + 1, specifier, m, start);
        lemma_alike_stars(g, d, specifier, m, start, start);
        let info = info_of(g, specifier);
        let text = info.re_exports[n - 1];
        let to = resolved(info.dependencies, text);
        lemma_target(g, specifier, text);
        lemma_alike_outcome(g, d, before.analyzed, Seq::empty(), to, Wanted::Star);
        lemma_alike_outcome(g, d + 1, before.analyzed, Seq::empty(), to, Wanted::Star);
        to
    }
}

proof fn lemma_first_too_deep(
    g: Seq<(Seq<char>, Info)>,
    d: nat,
    specifier: Seq<char>,
    name: Seq<char>,
    from: int,
    analyzed: Seq<(Seq<char>, ())>,
) -> (to: Seq<char>)
    requires
        graph_wf(g),
        has_key(g, specifier),
        all_clean(g, analyzed),
        too_deep(first_star(g, d, specifier, name, from, analyzed)),
        !too_deep(first_star(g, d + 1, specifier, name, from, analyzed)),
    ensures
        has_key(g, to),
        needs_depth(g, to, Wanted::Named(seq![name]), d + 1),
    decreases info_of(g, specifier).re_exports.len() - from,
{
    let info = info_of(g, specifier);
    let text = info.re_exports[from];
    let to = resolved(info.dependencies, text);
    let wanted = Wanted::Named(seq![name]);
    if !resolves(info.dependencies, text) {
        lemma_first_too_deep(g, d, specifier, name, from + 1, analyzed)
    } else {
        lemma_target(g, specifier, text);
        let inner = outcome(g, d, analyzed, to, wanted);
        if too_deep(inner) {
            lemma_alike_outcome(g, d, analyzed, Seq::empty(), to, wanted);
            lemma_alike_outcome(g, d + 1, analyzed, Seq::empty(), to, wanted);
            to
        } else {
            lemma_deeper_outcome(g, d, d + 1, analyzed, to, wanted);
            lemma_outcome_valid(g, d, analyzed, to, wanted);
            lemma_first_too_deep(g, d, specifier, name, from + 1, inner.analyzed)
        }
    }
}

/// Of the names that are looked for, one needs the depth that is too small for all of
/// them.
proof fn lemma_name_too_deep(
    g: Seq<(Seq<char>, Info)>,
    d: nat,
    specifier: Seq<char>,
    names: Seq<Seq<char>>,
    n: nat,
    start: Outcome,
    id: int,
) -> (name: Seq<char>)
    requires
        graph_wf(g),
        has_key(g, specifier),
        n <= names.len(),
        all_clean(g, start.analyzed),
        start.failure is None,
        too_deep(names_upto(g, d, specifier, names, n, start, id)),
        !too_deep(names_upto(g, d + 1, specifier, names, n, start, id)),
    ensures
        names.contains(name),
        name != "default"@,
        !has_key(info_of(g, specifier).exports, name),
        too_deep(first_star(g, d, specifier, name, 0, Seq::empty())),
        !too_deep(first_star(g, d + 1, specifier, name, 0, Seq::empty())),
    decreases n,
{
    let m = (n - 1) as nat;
    let before = names_upto(g, d, specifier, names, m, start, id);
    if too_deep(before) {
        lemma_name_too_deep(g, d, specifier, names, m, start, id)
    } else {
        let name = names[n - 1];
        lemma_deeper_names(g, d, d + 1, specifier, names, m, start, id);
        lemma_alike_names(g, d, specifier, names, m, start, start, id, id);
        lemma_alike_first(g, d, specifier, name, 0, before.analyzed, Seq::empty());
        lemma_alike_first(g, d + 1, specifier, name, 0, before.analyzed, Seq::empty());
        name
    }
}

/// Looking for one name comes to what looking in the other modules does, where the
/// module has no such export.
proof fn lemma_one_name(
    g: Seq<(Seq<char>, Info)>,
    d: nat,
    specifier: Seq<char>,
    name: Seq<char>,
)
    requires
        graph_wf(g),
        has_key(g, specifier),
        d > 0,
        info_of(g, specifier).diagnostic is None,
        name != "default"@,
        !has_key(info_of(g, specifier).exports, name),
    ensures
        outcome(g, d, Seq::empty(), specifier, Wanted::Named(seq![name])).failure == first_star(
            g,
            (d - 1) as nat,
            specifier,
            name,
            0,
            Seq::empty(),
        ).failure,
{
    let none = Seq::<(Seq<char>, ())>::empty();
    let below = (d - 1) as nat;
    let names = seq![name];
    let now = with_entry(none, specifier, ());
    let id = key_place(now, specifier);
    let start = names_start(none, specifier);
    lemma_opened(g, d, none, specifier, Wanted::Named(names));
    lemma_clean_entry(g, none, specifier);
    lemma_alike_first(g, below, specifier, name, 0, now, none);
    assert(names_upto(g, below, specifier, names, 0, start, id) == start);
    assert(names[0] == name);
}

/// What is wanted of modules because others export everything of them.
spec fn is_passed_on(wanted: Wanted) -> bool {
    wanted is Star || exists|name: Seq<char>|
        name != "default"@ && wanted == Wanted::Named(#[trigger] seq![name])
}

/// A search needs the depth that looking for one of the names, or for all exports but
/// the default one, needs.
proof fn lemma_needs_one(
    g: Seq<(Seq<char>, Info)>,
    specifier: Seq<char>,
    wanted: Wanted,
    d: nat,
) -> (one: Wanted)
    requires
        graph_wf(g),
        has_key(g, specifier),
        needs_depth(g, specifier, wanted, d),
        d > 1,
    ensures
        is_passed_on(one),
        needs_depth(g, specifier, one, d),
{
    let none = Seq::<(Seq<char>, ())>::empty();
    let below = (d - 1) as nat;
    let under = (d - 2) as nat;
    assert(below - 1 == under);
    assert(under + 1 == below);
    let info = info_of(g, specifier);
    lemma_key_place(none, specifier);
    lemma_clean_entry(g, none, specifier);
    lemma_opened(g, d, none, specifier, wanted);
    lemma_opened(g, below, none, specifier, wanted);
    match wanted {
        Wanted::Named(names) => {
            let id = key_place(with_entry(none, specifier, ()), specifier);
            let name = lemma_name_too_deep(
                g,
                under,
                specifier,
                names,
                names.len(),
                names_start(none, specifier),
                id,
            );
            lemma_one_name(g, d, specifier, name);
            lemma_one_name(g, below, specifier, name);
            assert(is_passed_on(Wanted::Named(seq![name])));
            Wanted::Named(seq![name])
        },
        _ => {
            let star = all_start(g, none, specifier, Wanted::Star);
            let all = all_start(g, none, specifier, wanted);
            let n = info.re_exports.len();
            lemma_opened(g, d, none, specifier, Wanted::Star);
            lemma_opened(g, below, none, specifier, Wanted::Star);
            lemma_alike_stars(g, below, specifier, n, star, all);
            lemma_alike_stars(g, under, specifier, n, star, all);
            Wanted::Star
        },
    }
}

/// Where one is wanted that is passed on, one of the other modules needs one level less.
proof fn lemma_next(
    g: Seq<(Seq<char>, Info)>,
    specifier: Seq<char>,
    wanted: Wanted,
    d: nat,
) -> (to: Seq<char>)
    requires
        graph_wf(g),
        has_key(g, specifier),
        is_passed_on(wanted),
        needs_depth(g, specifier, wanted, d),
        d > 1,
    ensures
        has_key(g, to),
        needs_depth(g, to, wanted, (d - 1) as nat),
{
    let none = Seq::<(Seq<char>, ())>::empty();
    let below = (d - 1) as nat;
    let under = (d - 2) as nat;
    assert(below - 1 == under);
    assert(under + 1 == below);
    let info = info_of(g, specifier);
    lemma_key_place(none, specifier);
    lemma_clean_entry(g, none, specifier);
    lemma_opened(g, d, none, specifier, wanted);
    lemma_opened(g, below, none, specifier, wanted);
    match wanted {
        Wanted::Named(names) => {
            let name = choose|name: Seq<char>|
                name != "default"@ && wanted == Wanted::Named(#[trigger] seq![name]);
            let id = key_place(with_entry(none, specifier, ()), specifier);
            let same = lemma_name_too_deep(
                g,
                under,
                specifier,
                names,
                names.len(),
                names_start(none, specifier),
                id,
            );
            assert(same == name);
            lemma_first_too_deep(g, under, specifier, name, 0, none)
        },
        _ => {
            lemma_star_too_deep(
                g,
                under,
                specifier,
                info.re_exports.len(),
                all_start(g, none, specifier, wanted),
            )
        },
    }
}

/// The modules by which a search goes down, from the first on.
proof fn lemma_chain(
    g: Seq<(Seq<char>, Info)>,
    specifier: Seq<char>,
    wanted: Wanted,
    d: nat,
) -> (chain: Seq<Seq<char>>)
    requires
        graph_wf(g),
        has_key(g, specifier),
        is_passed_on(wanted),
        needs_depth(g, specifier, wanted, d),
    ensures
        chain.len() == d,
        forall|i: int|
            0 <= i < d ==> has_key(g, #[trigger] chain[i]) && needs_depth(
                g,
                chain[i],
                wanted,
                (d - i) as nat,
            ),
    decreases d,
{
    if d == 1 {
        seq![specifier]
    } else {
        let to = lemma_next(g, specifier, wanted, d);
        let below = (d - 1) as nat;
        let rest = lemma_chain(g, to, wanted, below);
        let chain = seq![specifier] + rest;
        assert forall|i: int| 0 <= i < d implies has_key(g, #[trigger] chain[i]) && needs_depth(
            g,
            chain[i],
            wanted,
            (d - i) as nat,
        ) by {
            if i > 0 {
                assert(chain[i] == rest[i - 1]);
                assert((below - (i - 1)) as nat == (d - i) as nat);
            }
        }
        chain
    }
}

/// No search that ends needs to go deeper than there are modules.
proof fn lemma_bounded(g: Seq<(Seq<char>, Info)>, specifier: Seq<char>, wanted: Wanted, d: nat)
    requires
        graph_wf(g),
        has_key(g, specifier),
        is_passed_on(wanted),
        needs_depth(g, specifier, wanted, d),
    ensures
        d <= g.len(),
{
    let none = Seq::<(Seq<char>, ())>::empty();
    let chain = lemma_chain(g, specifier, wanted, d);
    let places = Seq::new(d, |i: int| key_place(g, chain[i]));
    assert(places.no_duplicates()) by {
        assert forall|i: int, j: int| 0 <= i < j < d implies places[i] != places[j] by {
            lemma_key_place(g, chain[i]);
            lemma_key_place(g, chain[j]);
            if places[i] == places[j] {
                assert(chain[i] == chain[j]);
                lemma_deeper_outcome(
                    g,
                    (d - j) as nat,
                    (d - i - 1) as nat,
                    none,
                    chain[i],
                    wanted,
                );
                assert(needs_depth(g, chain[i], wanted, (d - i) as nat));
            }
        }
    }
    places.unique_seq_to_set();
    let all = vstd::set_lib::set_int_range(0, g.len() as int);
    vstd::set_lib::lemma_int_range(0, g.len() as int);
    assert forall|p: int| places.to_set().contains(p) implies all.contains(p) by {
        let i = places.index_of(p);
        assert(places[i] == p);
        lemma_key_place(g, chain[i]);
    }
    vstd::set_lib::lemma_len_subset(places.to_set(), all);
}

proof fn lemma_least(
    g: Seq<(Seq<char>, Info)>,
    specifier: Seq<char>,
    wanted: Wanted,
    depth: nat,
) -> (d: nat)
    requires
        !too_deep(outcome(g, depth, Seq::empty(), specifier, wanted)),
    ensures
        d <= depth,
        needs_depth(g, specifier, wanted, d),
    decreases depth,
{
    if depth > 0 && too_deep(outcome(g, (depth - 1) as nat, Seq::empty(), specifier, wanted)) {
        depth
    } else {
        lemma_least(g, specifier, wanted, (depth - 1) as nat)
    }
}

/// A search that ends at all ends within as many levels as there are modules: whatever
/// depth it is allowed, it comes to what is found.
pub proof fn law_searches_end_within_the_modules(
    g: Seq<(Seq<char>, Info)>,
    depth: nat,
    analyzed: Seq<(Seq<char>, ())>,
    specifier: Seq<char>,
    wanted: Wanted,
)
    requires
        graph_wf(g),
        has_key(g, specifier),
        all_clean(g, analyzed),
        !too_deep(outcome(g, depth, analyzed, specifier, wanted)),
    ensures
        ends(g, analyzed, specifier, wanted),
        exports_found(g, analyzed, specifier, wanted) == outcome(
            g,
            depth,
            analyzed,
            specifier,
            wanted,
        ),
{
    let none = Seq::<(Seq<char>, ())>::empty();
    lemma_key_place(g, specifier);
    lemma_alike_outcome(g, depth, analyzed, none, specifier, wanted);
    let d = lemma_least(g, specifier, wanted, depth);
    if d > 1 {
        let one = lemma_needs_one(g, specifier, wanted, d);
        lemma_bounded(g, specifier, one, d);
    }
    lemma_deeper_outcome(g, d, g.len(), none, specifier, wanted);
    lemma_alike_outcome(g, g.len(), analyzed, none, specifier, wanted);
    if depth <= g.len() {
        lemma_deeper_outcome(g, depth, g.len(), analyzed, specifier, wanted);
    } else {
        lemma_deeper_outcome(g, g.len(), depth, analyzed, specifier, wanted);
    }
}

/// Whether each module all of whose exports another one exports has a lower rank than
/// it.
pub open spec fn ranked(g: Seq<(Seq<char>, Info)>, rank: spec_fn(Seq<char>) -> nat) -> bool {
    forall|i: int, j: int|
        #![trigger g[i].1.re_exports[j]]
        0 <= i < g.len() && 0 <= j < g[i].1.re_exports.len() && resolves(
            g[i].1.dependencies,
            g[i].1.re_exports[j],
        ) ==> rank(resolved(g[i].1.dependencies, g[i].1.re_exports[j])) < rank(g[i].0)
}

proof fn lemma_lower(
    g: Seq<(Seq<char>, Info)>,
    rank: spec_fn(Seq<char>) -> nat,
    specifier: Seq<char>,
    j: int,
)
    requires
        graph_wf(g),
        ranked(g, rank),
        has_key(g, specifier),
        0 <= j < info_of(g, specifier).re_exports.len(),
        resolves(info_of(g, specifier).dependencies, info_of(g, specifier).re_exports[j]),
    ensures
        ({
            let info = info_of(g, specifier);
            let to = resolved(info.dependencies, info.re_exports[j]);
            has_key(g, to) && rank(to) < rank(specifier)
        }),
{
    lemma_key_place(g, specifier);
    let p = key_place(g, specifier);
    let text = g[p].1.re_exports[j];
    lemma_target(g, specifier, text);
}

proof fn lemma_ranked_outcome(
    g: Seq<(Seq<char>, Info)>,
    rank: spec_fn(Seq<char>) -> nat,
    d: nat,
    analyzed: Seq<(Seq<char>, ())>,
    specifier: Seq<char>,
    wanted: Wanted,
)
    requires
        graph_wf(g),
        ranked(g, rank),
        has_key(g, specifier),
        d > rank(specifier),
    ensures
        !too_deep(outcome(g, d, analyzed, specifier, wanted)),
    decreases d, 0nat, 0nat,
{
    let info = info_of(g, specifier);
    if has_key(analyzed, specifier) || info.diagnostic is None {
        let below = (d - 1) as nat;
        lemma_opened(g, d, analyzed, specifier, wanted);
        match wanted {
            Wanted::Named(names) => {
                lemma_ranked_names(
                    g,
                    rank,
                    below,
                    specifier,
                    names,
                    names.len(),
                    names_start(analyzed, specifier),
                    key_place(with_entry(analyzed, specifier, ()), specifier),
                );
            },
            _ => {
                lemma_ranked_stars(
                    g,
                    rank,
                    below,
                    specifier,
                    info.re_exports.len(),
                    all_start(g, analyzed, specifier, wanted),
                );
            },
        }
    }
}

proof fn lemma_ranked_stars(
    g: Seq<(Seq<char>, Info)>,
    rank: spec_fn(Seq<char>) -> nat,
    d: nat,
    specifier: Seq<char>,
    n: nat,
    start: Outcome,
)
    requires
        graph_wf(g),
        ranked(g, rank),
        has_key(g, specifier),
        d >= rank(specifier),
        n <= info_of(g, specifier).re_exports.len(),
        !too_deep(start),
    ensures
        !too_deep(stars_upto(g, d, specifier, n, start)),
    decreases d, 1nat, n,
{
    if n > 0 {
        let m = (n - 1) as nat;
        lemma_ranked_stars(g, rank, d, specifier, m, start);
        let before = stars_upto(g, d, specifier, m, start);
        let info = info_of(g, specifier);
        let to = resolved(info.dependencies, info.re_exports[n - 1]);
        if resolves(info.dependencies, info.re_exports[n - 1]) {
            lemma_lower(g, rank, specifier, n - 1);
            lemma_ranked_outcome(g, rank, d, before.analyzed, to, Wanted::Star);
        }
    }
}

proof fn lemma_ranked_names(
    g: Seq<(Seq<char>, Info)>,
    rank: spec_fn(Seq<char>) -> nat,
    d: nat,
    specifier: Seq<char>,
    names: Seq<Seq<char>>,
    n: nat,
    start: Outcome,
    id: int,
)
    requires
        graph_wf(g),
        ranked(g, rank),
        has_key(g, specifier),
        d >= rank(specifier),
        !too_deep(start),
    ensures
        !too_deep(names_upto(g, d, specifier, names, n, start, id)),
    decreases d, 3nat, n,
{
    if n > 0 {
        let m = (n - 1) as nat;
        lemma_ranked_names(g, rank, d, specifier, names, m, start, id);
        let before = names_upto(g, d, specifier, names, m, start, id);
        lemma_ranked_first(g, rank, d, specifier, names[n - 1], 0, before.analyzed);
    }
}

proof fn lemma_ranked_first(
    g: Seq<(Seq<char>, Info)>,
    rank: spec_fn(Seq<char>) -> nat,
    d: nat,
    specifier: Seq<char>,
    name: Seq<char>,
    from: int,
    analyzed: Seq<(Seq<char>, ())>,
)
    requires
        graph_wf(g),
        ranked(g, rank),
        has_key(g, specifier),
        d >= rank(specifier),
        0 <= from,
    ensures
        !too_deep(first_star(g, d, specifier, name, from, analyzed)),
    decreases d, 2nat, info_of(g, specifier).re_exports.len() - from,
{
    let info = info_of(g, specifier);
    if from < info.re_exports.len() {
        let to = resolved(info.dependencies, info.re_exports[from]);
        if resolves(info.dependencies, info.re_exports[from]) {
            let wanted = Wanted::Named(seq![name]);
            lemma_lower(g, rank, specifier, from);
            lemma_ranked_outcome(g, rank, d, analyzed, to, wanted);
            let inner = outcome(g, d, analyzed, to, wanted);
            lemma_ranked_first(g, rank, d, specifier, name, from + 1, inner.analyzed);
        } else {
            lemma_ranked_first(g, rank, d, specifier, name, from + 1, analyzed);
        }
    }
}

/// Where no module exports, through others, all its own exports, every search ends.
pub proof fn law_searches_without_circles_end(
    g: Seq<(Seq<char>, Info)>,
    rank: spec_fn(Seq<char>) -> nat,
    analyzed: Seq<(Seq<char>, ())>,
    specifier: Seq<char>,
    wanted: Wanted,
)
    requires
        graph_wf(g),
        ranked(g, rank),
        has_key(g, specifier),
        all_clean(g, analyzed),
    ensures
        ends(g, analyzed, specifier, wanted),
{
    let depth = rank(specifier) + 1;
    lemma_ranked_outcome(g, rank, depth, analyzed, specifier, wanted);
    law_searches_end_within_the_modules(g, depth, analyzed, specifier, wanted);
}

/// Whether what is known in a state speaks of modules of the graph alone, and every
/// module that was analyzed could be.
spec fn state_valid(g: Seq<(Seq<char>, Info)>, s: TraceState) -> bool {
    &&& all_clean(g, s.analyzed)
    &&& all_there(g, s.pending)
    &&& forall|i: int| 0 <= i < s.log.len() ==> 0 <= (#[trigger] s.log[i]).0 < g.len()
}

spec fn all_there(g: Seq<(Seq<char>, Info)>, p: Seq<(Seq<char>, Wanted)>) -> bool {
    forall|i: int| 0 <= i < p.len() ==> has_key(g, (#[trigger] p[i]).0)
}

proof fn lemma_wants_there(
    g: Seq<(Seq<char>, Info)>,
    p: Seq<(Seq<char>, Wanted)>,
    log: Seq<(int, int)>,
    from: nat,
    n: nat,
)
    requires
        graph_wf(g),
        all_there(g, p),
        n <= log.len(),
        forall|i: int| 0 <= i < log.len() ==> 0 <= (#[trigger] log[i]).0 < g.len(),
    ensures
        all_there(g, wants_from(g, p, log, from, n)),
    decreases n,
{
    if n > from {
        lemma_wants_there(g, p, log, from, (n - 1) as nat);
        let before = wants_from(g, p, log, from, (n - 1) as nat);
        let after = wants_from(g, p, log, from, n);
        let a = log[n - 1];
        match g[a.0].1.file_deps[a.1] {
            Some(dep) => {
                let deps = g[a.0].1.dependencies;
                let to = resolved(deps, dep.specifier);
                lemma_key_place(deps, dep.specifier);
                lemma_key_place(before, to);
                if resolves(deps, dep.specifier) {
                    assert(has_key(g, g[a.0].1.dependencies[key_place(deps, dep.specifier)].1));
                    assert forall|i: int| 0 <= i < after.len() implies has_key(
                        g,
                        (#[trigger] after[i]).0,
                    ) by {
                        if i < before.len() {
                            assert(has_key(g, before[i].0));
                        }
                    }
                }
            },
            None => {},
        }
    }
}

proof fn lemma_log_there(
    g: Seq<(Seq<char>, Info)>,
    out: Outcome,
    log: Seq<(int, int)>,
    from: int,
    i: int,
)
    requires
        outcome_valid(g, out),
        0 <= from <= i < log.len(),
        forall|k: int|
            from <= k < log.len() ==> is_found(g, out.found, #[trigger] log[k]) || is_needed(
                g,
                log,
                from,
                k,
                log[k],
            ),
    ensures
        0 <= log[i].0 < g.len(),
    decreases i,
{
    if is_found(g, out.found, log[i]) {
        let k = choose|k: int|
            0 <= k < out.found.len() && symbol_at(g, #[trigger] out.found[k]) == log[i];
        assert(is_symbol(g, symbol_at(g, out.found[k])));
    } else {
        let j = choose|j: int| from <= j < i && needs(g, #[trigger] log[j], log[i]);
        lemma_log_there(g, out, log, from, j);
    }
}

proof fn lemma_step_valid(g: Seq<(Seq<char>, Info)>, s: TraceState, t: TraceState)
    requires
        graph_wf(g),
        state_valid(g, s),
        run_step(g, s, t),
    ensures
        state_valid(g, t),
{
    let last = s.pending[s.pending.len() - 1];
    let rest = s.pending.drop_last();
    let out = exports_found(g, s.analyzed, last.0, last.1);
    lemma_outcome_valid(g, g.len(), s.analyzed, last.0, last.1);
    let from = s.log.len() as int;
    assert forall|i: int| 0 <= i < t.log.len() implies 0 <= (#[trigger] t.log[i]).0 < g.len() by {
        if i < from {
            assert(t.log[i] == s.log[i]);
        } else {
            lemma_log_there(g, out, t.log, from, i);
        }
    }
    assert forall|i: int| 0 <= i < rest.len() implies has_key(g, (#[trigger] rest[i]).0) by {
        assert(rest[i] == s.pending[i]);
    }
    lemma_wants_there(g, rest, t.log, s.log.len(), t.log.len());
}

proof fn lemma_run_valid(
    g: Seq<(Seq<char>, Info)>,
    root: Seq<char>,
    traced: Seq<Seq<(Seq<char>, (Seq<char>, int, SymbolId))>>,
    run: Seq<TraceState>,
    i: int,
)
    requires
        graph_wf(g),
        has_key(g, root),
        is_run(g, root, traced, run),
        0 <= i < run.len(),
    ensures
        state_valid(g, run[i]),
    decreases i,
{
    if i > 0 {
        lemma_run_valid(g, root, traced, run, i - 1);
        assert(run_step(g, run[i - 1], run[i]));
        lemma_step_valid(g, run[i - 1], run[i]);
    }
}

/// Where no module exports, through others, all its own exports, whatever a trace looks
/// for comes to an end.
pub proof fn law_traces_without_circles_end(
    g: Seq<(Seq<char>, Info)>,
    rank: spec_fn(Seq<char>) -> nat,
    root: Seq<char>,
    traced: Seq<Seq<(Seq<char>, (Seq<char>, int, SymbolId))>>,
)
    requires
        graph_wf(g),
        ranked(g, rank),
        has_key(g, root),
    ensures
        requests_end(g, root, traced),
{
    assert forall|run: Seq<TraceState>| #[trigger] is_run(g, root, traced, run) implies !run_hangs(
        g,
        run.last(),
    ) by {
        let s = run[run.len() - 1];
        lemma_run_valid(g, root, traced, run, run.len() - 1);
        if s.pending.len() > 0 {
            let last = s.pending[s.pending.len() - 1];
            law_searches_without_circles_end(g, rank, s.analyzed, last.0, last.1);
        }
    }
}

}
