//! Whether a graph of modules can be traced.

use vstd::prelude::*;

use super::tracer::{
    graph_wf, infos, is_public_at, is_symbol, traceable, Info, TraceModule,
};
use crate::collections::{has_key, lemma_key_place_same, TextMap};
use crate::specifier::ModuleSpecifier;

verus! {

/// Whether every name of a module resolves to a module of the graph, if to any.
pub open spec fn deps_there(g: Seq<(Seq<char>, Info)>, info: Info) -> bool {
    forall|j: int|
        0 <= j < info.dependencies.len() ==> has_key(g, (#[trigger] info.dependencies[j]).1)
}

/// Whether this holds of every module.
pub open spec fn all_deps_there(g: Seq<(Seq<char>, Info)>) -> bool {
    forall|i: int| 0 <= i < g.len() ==> deps_there(g, (#[trigger] g[i]).1)
}

/// Whether no symbol is public yet.
pub open spec fn none_public(graph: Seq<(Seq<char>, TraceModule)>) -> bool {
    forall|i: int| 0 <= i < graph.len() ==> !has_public(#[trigger] graph[i])
}

/// Whether a module has a public symbol.
pub open spec fn has_public(module: (Seq<char>, TraceModule)) -> bool {
    exists|k: int|
        0 <= k < module.1.symbols@.symbols.len() && (
        #[trigger] module.1.symbols@.symbols[k]).is_public
}

fn check_deps(graph: &TextMap<TraceModule>) -> (r: bool)
    requires
        graph.wf(),
    ensures
        r == all_deps_there(infos(graph@)),
{
    let ghost g = infos(graph@);
    let mut i: usize = 0;
    while i < graph.len()
        invariant
            graph.wf(),
            g == infos(graph@),
            i <= graph@.len(),
            forall|k: int| 0 <= k < i ==> deps_there(g, (#[trigger] g[k]).1),
        decreases graph@.len() - i,
    {
        let module: &TraceModule = graph.value_at(i);
        assert(g[i as int].1 == module.info());
        let mut j: usize = 0;
        while j < module.dependencies.len()
            invariant
                graph.wf(),
                g == infos(graph@),
                i < graph@.len(),
                g[i as int].1 == module.info(),
                j <= module.dependencies@.len(),
                forall|k: int|
                    0 <= k < j ==> has_key(g, (#[trigger] g[i as int].1.dependencies[k]).1),
            decreases module.dependencies@.len() - j,
        {
            let to: &ModuleSpecifier = &module.dependencies[j].specifier;
            assert(g[i as int].1.dependencies[j as int].1 == to@);
            proof {
                lemma_key_place_same(graph@, g, to@);
            }
            if !graph.contains_key(to.text.as_str()) {
                assert(!deps_there(g, g[i as int].1));
                return false;
            }
            j = j + 1;
        }
        i = i + 1;
    }
    true
}

fn check_none_public(graph: &TextMap<TraceModule>) -> (r: bool)
    requires
        graph.wf(),
    ensures
        r == none_public(graph@),
{
    let mut i: usize = 0;
    while i < graph.len()
        invariant
            graph.wf(),
            i <= graph@.len(),
            forall|k: int| 0 <= k < i ==> !has_public(#[trigger] graph@[k]),
        decreases graph@.len() - i,
    {
        let module: &TraceModule = graph.value_at(i);
        let mut j: usize = 0;
        while j < module.symbols.symbols.len()
            invariant
                i < graph@.len(),
                *module == graph@[i as int].1,
                j <= module.symbols.symbols@.len(),
                forall|k: int|
                    0 <= k < j ==> !(#[trigger] module.symbols@.symbols[k]).is_public,
            decreases module.symbols.symbols@.len() - j,
        {
            assert(module.symbols@.symbols[j as int] == module.symbols.symbols@[j as int]@);
            if module.symbols.symbols[j].is_public {
                assert(has_public(graph@[i as int]));
                return false;
            }
            j = j + 1;
        }
        i = i + 1;
    }
    true
}

/// Whether a graph of modules can be traced from a root: the root and every module that
/// another one names is there, and nothing was traced yet.
pub fn can_trace(graph: &TextMap<TraceModule>, root: &ModuleSpecifier) -> (r: bool)
    requires
        graph.wf(),
        forall|i: int| 0 <= i < graph@.len() ==> (#[trigger] graph@[i]).1.symbols.wf(),
    ensures
        r == (has_key(infos(graph@), root@) && all_deps_there(infos(graph@)) && none_public(
            graph@,
        )),
        r ==> {
            &&& traceable(*graph)
            &&& forall|a: (int, int)|
                is_symbol(infos(graph@), a) ==> !#[trigger] is_public_at(graph@, a)
        },
{
    let ghost g = infos(graph@);
    proof {
        graph.lemma_distinct();
        assert forall|i: int, j: int| 0 <= i < j < g.len() implies (#[trigger] g[i]).0 != (
        #[trigger] g[j]).0 by {
            assert(graph@[i].0 != graph@[j].0);
        }
        lemma_key_place_same(graph@, g, root@);
    }
    if !graph.contains_key(root.text.as_str()) {
        return false;
    }
    if !check_deps(graph) {
        return false;
    }
    if !check_none_public(graph) {
        return false;
    }
    proof {
        assert(graph_wf(g)) by {
            assert forall|i: int, j: int|
                #![trigger g[i].1.dependencies[j]]
                0 <= i < g.len() && 0 <= j < g[i].1.dependencies.len() implies has_key(
                g,
                g[i].1.dependencies[j].1,
            ) by {
                assert(deps_there(g, g[i].1));
            }
            assert forall|i: int, j: int|
                #![trigger g[i].1.exports[j]]
                0 <= i < g.len() && 0 <= j < g[i].1.exports.len() implies g[i].1.exports[j].1.0
                < g[i].1.deps.len() by {
                assert(graph@[i].1.symbols.wf());
                assert(graph@[i].1.symbols@.exports[j].1.0 < graph@[i].1.symbols@.symbols.len());
            }
            assert forall|i: int, j: int|
                #![trigger g[i].1.ids[j]]
                0 <= i < g.len() && 0 <= j < g[i].1.ids.len() implies g[i].1.ids[j].1.0
                < g[i].1.deps.len() by {
                assert(graph@[i].1.symbols.wf());
                assert(graph@[i].1.symbols@.ids[j].1.0 < graph@[i].1.symbols@.symbols.len());
            }
            assert forall|i: int|
                0 <= i < g.len() && (
                #[trigger] g[i]).1.default_export is Some implies g[i].1.default_export.unwrap().0
                < g[i].1.deps.len() by {
                assert(graph@[i].1.symbols.wf());
            }
        }
        assert forall|a: (int, int)| is_symbol(g, a) implies !#[trigger] is_public_at(
            graph@,
            a,
        ) by {
            assert(!has_public(graph@[a.0]));
            assert(graph@[a.0].1.symbols@.symbols.len() == g[a.0].1.deps.len());
        }
    }
    true
}

}
