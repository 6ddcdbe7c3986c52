//! Where exports lead.

use vstd::prelude::*;

use super::analyzer::{
    followed, next_of, Definition, DefinitionPath, FileRef, Followed, ModuleRef, PathDecl,
    PathStep, Target, UniqueSymbolId,
};
use super::binder::FileDepName;
use crate::specifier::is_remote_url;

verus! {

/// Whether a reference to a file is to a module on the web.
pub open spec fn is_web(file_ref: FileRef) -> bool {
    file_ref.resolved is Some && is_remote_url(file_ref.resolved.unwrap()@)
}

/// Whether a step leads on within the files.
pub open spec fn leads_on(step: PathStep) -> bool {
    match step.decl {
        PathDecl::FileRef(file_ref) => !is_web(file_ref),
        PathDecl::Definition => false,
        _ => true,
    }
}

/// Whether a way leads, step by step and without a fork, to the definition of a symbol.
pub open spec fn leads_straight_to(p: DefinitionPath, id: UniqueSymbolId) -> bool
    decreases p,
{
    match p {
        DefinitionPath::Path(step) => leads_on(step) && step.next@.len() == 1 && leads_straight_to(
            step.next@[0],
            id,
        ),
        DefinitionPath::Definition(d) => d.kind is Definition && d.symbol.file_dep is None
            && d.symbol.id == id,
        DefinitionPath::Unresolved(_) => false,
    }
}

/// A way that leads to the definition of a symbol is followed to that symbol, however long
/// it is.
pub proof fn law_definitions_are_found(p: DefinitionPath, id: UniqueSymbolId)
    requires
        leads_straight_to(p, id),
    ensures
        followed(seq![p]) == Followed::Found(Target::Symbol(id)),
    decreases p,
{
    let pending = seq![p];
    assert(pending[0] == p);
    match p {
        DefinitionPath::Path(step) => {
            let next = step.next@[0];
            law_definitions_are_found(next, id);
            assert(pending.skip(1) + next_of(p) =~= seq![next]);
        },
        _ => {},
    }
}

/// Whether a way leads to a module on the web before it leads to a definition.
pub open spec fn leads_to_web(p: DefinitionPath, module: ModuleRef, file_ref: FileRef) -> bool
    decreases p,
{
    match p {
        DefinitionPath::Path(step) => match step.decl {
            PathDecl::FileRef(r) => if is_web(r) {
                r == file_ref && step.module == module
            } else {
                step.next@.len() == 1 && leads_to_web(step.next@[0], module, file_ref)
            },
            PathDecl::Definition => false,
            _ => step.next@.len() == 1 && leads_to_web(step.next@[0], module, file_ref),
        },
        _ => false,
    }
}

/// A way that leads to a module on the web is followed no further: what it leads to is a
/// dependency of the module in which it is written on the other, under the name there.
pub proof fn law_ways_to_the_web_end_there(
    p: DefinitionPath,
    module: ModuleRef,
    file_ref: FileRef,
)
    requires
        leads_to_web(p, module, file_ref),
        is_web(file_ref),
    ensures
        followed(seq![p]) == Followed::Found(
            Target::Remote {
                referrer: module.module_id.0,
                specifier_text: file_ref.specifier@,
                resolved_specifier: file_ref.resolved.unwrap()@,
                name: match file_ref.name {
                    FileDepName::All => None,
                    FileDepName::Name(name) => Some(name@),
                },
            },
        ),
    decreases p,
{
    let pending = seq![p];
    assert(pending[0] == p);
    match p {
        DefinitionPath::Path(step) => {
            let ends = match step.decl {
                PathDecl::FileRef(r) => is_web(r),
                _ => false,
            };
            if !ends {
                let next = step.next@[0];
                law_ways_to_the_web_end_there(next, module, file_ref);
                assert(pending.skip(1) + next_of(p) =~= seq![next]);
            }
        },
        _ => {},
    }
}

}
