//! What goes into a declaration file, by module.

use vstd::prelude::*;

use super::analyzer::UniqueSymbolId;
use super::binder::ModuleId;
use super::root_symbol::ModuleInfo;
use crate::collections::{
    distinct_keys, has_key, key_place, lemma_key_place, lemma_key_place_is, lemma_key_place_same,
    IdMap, PairMap,
};
use crate::comments::{
    comments_at, comments_can_move, comments_fit, fill_leading_comments, taken, CommentFilter,
    CommentText, Comments,
};
use crate::helpers::{adjust_spans, can_move, made, make, moved, one, placed, spans_fit};
use crate::syntax::{
    at, child, group_trees, has_part, lemma_place, no_span, place, trees, Flags, Kind, Node, Role,
    Span, Tree,
};

verus! {

/// A namespace for a module: its name, and what it exports.
#[derive(Debug)]
pub struct NamespaceEmitInfo {
    pub name: String,
    pub exports: Vec<(String, UniqueSymbolId)>,
}

/// What a [`NamespaceEmitInfo`] stands for.
#[verifier::ext_equal]
pub struct Namespace {
    pub name: Seq<char>,
    pub exports: Seq<(Seq<char>, UniqueSymbolId)>,
}

/// What a sequence of exports of a namespace stands for.
pub open spec fn exports_of(s: Seq<(String, UniqueSymbolId)>) -> Seq<(Seq<char>, UniqueSymbolId)> {
    Seq::new(s.len(), |i: int| (s[i].0@, s[i].1))
}

impl NamespaceEmitInfo {
    pub open spec fn view(&self) -> Namespace {
        Namespace { name: self.name@, exports: exports_of(self.exports@) }
    }
}

/// What goes into the output of one module.
pub struct ModuleEmitInfo {
    pub namespace_info: Option<NamespaceEmitInfo>,
    pub items: Vec<Node>,
    pub ident_mapping: IdMap<UniqueSymbolId>,
}

/// What a [`ModuleEmitInfo`] stands for.
#[verifier::ext_equal]
pub struct Emitted {
    pub namespace: Option<Namespace>,
    pub items: Seq<Tree>,
    pub mapping: Seq<((Seq<char>, u32), UniqueSymbolId)>,
}

/// Nothing of a module goes into the output yet.
pub open spec fn nothing_emitted() -> Emitted {
    Emitted { namespace: None, items: Seq::empty(), mapping: Seq::empty() }
}

impl ModuleEmitInfo {
    pub open spec fn view(&self) -> Emitted {
        Emitted {
            namespace: match self.namespace_info {
                Some(info) => Some(info@),
                None => None,
            },
            items: trees(self.items@),
            mapping: self.ident_mapping@,
        }
    }

    pub open spec fn wf(&self) -> bool {
        self.ident_mapping.wf()
    }
}

/// What goes into the output, by module, in the order in which modules came.
pub struct ModuleEmitInfos {
    infos: PairMap<ModuleEmitInfo>,
}

/// The modules after one came.
pub open spec fn created(s: Seq<(usize, Emitted)>, module_id: usize) -> Seq<(usize, Emitted)> {
    if has_key(s, module_id) {
        s
    } else {
        s.push((module_id, nothing_emitted()))
    }
}

/// What goes into the output of a module that came.
pub open spec fn emitted_of(s: Seq<(usize, Emitted)>, module_id: usize) -> Emitted {
    s[key_place(s, module_id)].1
}

/// The modules with another output for one that came.
pub open spec fn with_emitted(
    s: Seq<(usize, Emitted)>,
    module_id: usize,
    e: Emitted,
) -> Seq<(usize, Emitted)> {
    s.update(key_place(s, module_id), (module_id, e))
}

/// The modules stay in their places.
pub proof fn lemma_created(s: Seq<(usize, Emitted)>, module_id: usize, other: usize)
    ensures
        has_key(created(s, module_id), module_id),
        has_key(s, other) ==> has_key(created(s, module_id), other) && key_place(
            created(s, module_id),
            other,
        ) == key_place(s, other),
        !has_key(s, other) && other != module_id ==> !has_key(created(s, module_id), other),
        distinct_keys(s) ==> distinct_keys(created(s, module_id)),
{
    let after = created(s, module_id);
    lemma_key_place(s, module_id);
    lemma_key_place(s, other);
    lemma_key_place(after, module_id);
    lemma_key_place(after, other);
    if !has_key(s, module_id) {
        assert(after[s.len() as int].0 == module_id);
        if has_key(s, other) {
            let p = key_place(s, other);
            let q = key_place(after, other);
            assert(after[p] == s[p]);
            if q < p {
                assert(after[q] == s[q]);
            }
        } else if other != module_id {
            let q = key_place(after, other);
            if q < s.len() {
                assert(after[q] == s[q]);
            }
        }
        if distinct_keys(s) {
            assert forall|i: int, j: int| 0 <= i < j < after.len() implies (
            #[trigger] after[i]).0 != (#[trigger] after[j]).0 by {
                assert(after[i] == s[i]);
                if j < s.len() {
                    assert(after[j] == s[j]);
                }
            }
        }
    }
}

/// The modules stay in their places.
pub proof fn lemma_with_emitted(
    s: Seq<(usize, Emitted)>,
    module_id: usize,
    e: Emitted,
    other: usize,
)
    requires
        has_key(s, module_id),
    ensures
        key_place(with_emitted(s, module_id, e), other) == key_place(s, other),
        has_key(with_emitted(s, module_id, e), other) == has_key(s, other),
        emitted_of(with_emitted(s, module_id, e), module_id) == e,
        other != module_id && has_key(s, other) ==> emitted_of(
            with_emitted(s, module_id, e),
            other,
        ) == emitted_of(s, other),
{
    let after = with_emitted(s, module_id, e);
    lemma_key_place(s, module_id);
    lemma_key_place(s, other);
    lemma_key_place_same(s, after, other);
    lemma_key_place_same(s, after, module_id);
}

impl ModuleEmitInfos {
    pub closed spec fn view(&self) -> Seq<(usize, Emitted)> {
        Seq::new(self.infos@.len(), |i: int| (self.infos@[i].0.0, self.infos@[i].1@))
    }

    pub closed spec fn wf(&self) -> bool {
        &&& self.infos.wf()
        &&& forall|i: int|
            0 <= i < self.infos@.len() ==> (#[trigger] self.infos@[i]).0.1 == 0
                && self.infos@[i].1.wf()
    }

    /// No module stands twice.
    pub proof fn lemma_distinct(&self)
        requires
            self.wf(),
        ensures
            distinct_keys(self@),
    {
        self.infos.lemma_distinct();
        assert forall|i: int, j: int| 0 <= i < j < self@.len() implies (#[trigger] self@[i]).0 != (
        #[trigger] self@[j]).0 by {
            assert(self.infos@[i].0 != self.infos@[j].0);
        }
    }

    proof fn lemma_place(&self, module_id: usize)
        requires
            self.wf(),
        ensures
            key_place(self@, module_id) == key_place(self.infos@, (module_id, 0usize)),
    {
        let key = (module_id, 0usize);
        lemma_key_place(self@, module_id);
        lemma_key_place(self.infos@, key);
        let p = key_place(self@, module_id);
        let q = key_place(self.infos@, key);
        if p < q {
            assert(self@[p].0 == module_id);
            assert(self.infos@[p].0 == key);
        }
        if q < p {
            assert(self.infos@[q].0 == key);
            assert(self@[q].0 == module_id);
        }
    }

    pub fn new() -> (r: ModuleEmitInfos)
        ensures
            r.wf(),
            r@ == Seq::<(usize, Emitted)>::empty(),
    {
        let r = ModuleEmitInfos { infos: PairMap::new() };
        assert(r@ =~= Seq::<(usize, Emitted)>::empty());
        r
    }

    pub fn len(&self) -> (r: usize)
        requires
            self.wf(),
        ensures
            r == self@.len(),
    {
        self.infos.len()
    }

    /// What goes into the output of a module, if it came.
    pub fn get(&self, module_id: ModuleId) -> (r: Option<&ModuleEmitInfo>)
        requires
            self.wf(),
        ensures
            r is Some <==> has_key(self@, module_id.0),
            r matches Some(info) ==> info@ == emitted_of(self@, module_id.0) && info.wf(),
    {
        proof {
            self.lemma_place(module_id.0);
            lemma_key_place(self@, module_id.0);
        }
        self.infos.get((module_id.0, 0))
    }

    /// The number of the module at a place.
    pub fn module_at(&self, i: usize) -> (r: ModuleId)
        requires
            self.wf(),
            i < self@.len(),
        ensures
            r.0 == self@[i as int].0,
    {
        ModuleId(self.infos.key_at(i).0)
    }

    /// What goes into the output of the module at a place.
    pub fn info_at(&self, i: usize) -> (r: &ModuleEmitInfo)
        requires
            self.wf(),
            i < self@.len(),
        ensures
            r@ == self@[i as int].1,
            r.wf(),
    {
        self.infos.value_at(i)
    }

    /// Lets a module come.
    fn create(&mut self, module_id: ModuleId) -> (r: usize)
        requires
            old(self).wf(),
        ensures
            final(self).wf(),
            final(self)@ == created(old(self)@, module_id.0),
            r == key_place(final(self)@, module_id.0),
            r < final(self)@.len(),
    {
        let ghost before = self@;
        proof {
            self.lemma_place(module_id.0);
            lemma_key_place(self@, module_id.0);
        }
        match self.infos.place((module_id.0, 0)) {
            Some(i) => i,
            None => {
                let i: usize = self.infos.len();
                let info = ModuleEmitInfo {
                    namespace_info: None,
                    items: Vec::new(),
                    ident_mapping: IdMap::new(),
                };
                assert(info@ =~= nothing_emitted()) by {
                    broadcast use group_trees;

                }
                let ghost entries = self.infos@;
                self.infos.insert((module_id.0, 0), info);
                assert(self.infos@ == entries.push(((module_id.0, 0usize), info)));
                assert(self@ =~= before.push((module_id.0, nothing_emitted())));
                proof {
                    assert forall|k: int| 0 <= k < self.infos@.len() implies (
                    #[trigger] self.infos@[k]).0.1 == 0 && self.infos@[k].1.wf() by {
                        if k < entries.len() {
                            assert(self.infos@[k] == entries[k]);
                        }
                    }
                    self.lemma_distinct();
                    assert(self@[i as int].0 == module_id.0);
                    lemma_key_place_is(self@, i as int);
                }
                i
            },
        }
    }

    /// What goes into the output of a module, to be changed.
    pub fn get_or_create(&mut self, module_id: ModuleId) -> (r: &mut ModuleEmitInfo)
        requires
            old(self).wf(),
        ensures
            r.wf(),
            r@ == emitted_of(created(old(self)@, module_id.0), module_id.0),
            final(r).wf() ==> final(self).wf(),
            final(self)@ =~= with_emitted(
                created(old(self)@, module_id.0),
                module_id.0,
                final(r)@,
            ),
    {
        let i: usize = self.create(module_id);
        assert(self.infos@[i as int].1.wf());
        assert(self@[i as int].0 == module_id.0) by {
            lemma_key_place(self@, module_id.0);
        }
        self.infos.value_at_mut(i)
    }
}

/// The modules without their items.
pub open spec fn without_items(s: Seq<(usize, Emitted)>) -> Seq<(usize, Emitted)> {
    Seq::new(s.len(), |i: int| (s[i].0, Emitted { items: Seq::empty(), ..s[i].1 }))
}

impl ModuleEmitInfos {
    /// Takes the items of every module out.
    pub fn clear_items(&mut self)
        requires
            old(self).wf(),
        ensures
            final(self).wf(),
            final(self)@ == without_items(old(self)@),
    {
        let ghost before = self@;
        let count: usize = self.infos.len();
        let mut i: usize = 0;
        while i < count
            invariant
                self.wf(),
                i <= count,
                self@.len() == count,
                before.len() == count,
                forall|j: int| 0 <= j < i ==> self@[j] == without_items(before)[j],
                forall|j: int| i <= j < count ==> self@[j] == before[j],
            decreases count - i,
        {
            broadcast use group_trees;

            let ghost earlier = self@;
            assert(self.infos@[i as int].1.wf());
            let info: &mut ModuleEmitInfo = self.infos.value_at_mut(i);
            info.items = Vec::new();
            proof {
                assert(earlier[i as int] == before[i as int]);
                assert forall|j: int| 0 <= j < count && j != i implies self@[j] == earlier[j] by {}
                assert(self@[i as int].1 =~= without_items(before)[i as int].1);
            }
            i = i + 1;
        }
        assert(self@ =~= without_items(before));
    }
}

/// The state of an output.
#[verifier::ext_equal]
pub struct Out {
    pub infos: Seq<(usize, Emitted)>,
    /// Where the source files of modules start, in the order in which they came.
    pub starts: Seq<(usize, u32)>,
    /// Where the next source file starts.
    pub next_pos: u32,
    /// Whether a position was too large.
    pub overflown: bool,
}

/// Whether a source file fits behind those that came.
pub open spec fn file_fits(o: Out, module: ModuleInfo) -> bool {
    &&& o.next_pos + module.source_len + 1 <= u32::MAX
    &&& module.is_esm ==> comments_can_move(module.comments.leading@, o.next_pos as nat)
}

/// The output after the source file of a module came, with one free position behind
/// it.
pub open spec fn started(o: Out, module_id: usize, module: ModuleInfo) -> Out {
    if has_key(o.starts, module_id) {
        o
    } else if file_fits(o, module) {
        Out {
            starts: o.starts.push((module_id, o.next_pos)),
            next_pos: (o.next_pos + module.source_len + 1) as u32,
            ..o
        }
    } else {
        Out { starts: o.starts.push((module_id, o.next_pos)), overflown: true, ..o }
    }
}

/// Where the source file of a module starts.
pub open spec fn start_of(o: Out, module_id: usize) -> u32 {
    o.starts[key_place(o.starts, module_id)].1
}

/// The output with one more item of a module.
pub open spec fn item_added(o: Out, module_id: usize, module: ModuleInfo, item: Tree) -> Out {
    let after = started(o, module_id, module);
    let start = start_of(after, module_id) as nat;
    if can_move(item, start) {
        let infos = created(after.infos, module_id);
        let e = emitted_of(infos, module_id);
        Out {
            infos: with_emitted(
                infos,
                module_id,
                Emitted { items: e.items.push(moved(item, start)), ..e },
            ),
            ..after
        }
    } else {
        Out { overflown: true, ..after }
    }
}

/// The JSDoc comments at a position that come from the first `n` source files.
pub open spec fn comments_upto(
    modules: Seq<ModuleInfo>,
    starts: Seq<(usize, u32)>,
    n: nat,
    pos: int,
) -> Seq<CommentText>
    decreases n,
{
    if n == 0 {
        Seq::empty()
    } else {
        let before = comments_upto(modules, starts, (n - 1) as nat, pos);
        let module = modules[starts[n - 1].0 as int];
        let start = starts[n - 1].1;
        if module.is_esm {
            before + taken(
                comments_at(module.comments.leading@, pos - start),
                CommentFilter::OnlyJsDoc,
                start as nat,
            )
        } else {
            before
        }
    }
}

/// Whether the comments of the output are those of the source files that came.
pub open spec fn comments_ok(
    modules: Seq<ModuleInfo>,
    starts: Seq<(usize, u32)>,
    comments: Comments,
) -> bool {
    &&& comments.trailing@.len() == 0
    &&& forall|pos: int| #[trigger]
        comments_at(comments.leading@, pos) == comments_upto(modules, starts, starts.len(), pos)
}

proof fn lemma_comments_same(
    modules: Seq<ModuleInfo>,
    a: Seq<(usize, u32)>,
    b: Seq<(usize, u32)>,
    n: nat,
    pos: int,
)
    requires
        n <= a.len(),
        n <= b.len(),
        forall|i: int| 0 <= i < n ==> a[i] == b[i],
    ensures
        comments_upto(modules, a, n, pos) == comments_upto(modules, b, n, pos),
    decreases n,
{
    if n > 0 {
        lemma_comments_same(modules, a, b, (n - 1) as nat, pos);
    }
}

/// What goes into a declaration file.
pub struct OutputContainer {
    pub global_comments: Comments,
    pub modules: PairMap<u32>,
    pub next_pos: u32,
    pub module_emit_infos: ModuleEmitInfos,
    pub overflown: bool,
}

impl OutputContainer {
    pub open spec fn view(&self) -> Out {
        Out {
            infos: self.module_emit_infos@,
            starts: Seq::new(
                self.modules@.len(),
                |i: int| (self.modules@[i].0.0, self.modules@[i].1),
            ),
            next_pos: self.next_pos,
            overflown: self.overflown,
        }
    }

    pub open spec fn wf(&self) -> bool {
        &&& self.modules.wf()
        &&& forall|i: int| 0 <= i < self.modules@.len() ==> (#[trigger] self.modules@[i]).0.1 == 0
        &&& self.module_emit_infos.wf()
    }

    pub fn new() -> (r: OutputContainer)
        ensures
            r.wf(),
            r@ == (Out {
                infos: Seq::empty(),
                starts: Seq::empty(),
                next_pos: 1,
                overflown: false,
            }),
            r.global_comments.leading@.len() == 0,
            r.global_comments.trailing@.len() == 0,
    {
        let r = OutputContainer {
            global_comments: Comments { leading: Vec::new(), trailing: Vec::new() },
            modules: PairMap::new(),
            next_pos: 1,
            module_emit_infos: ModuleEmitInfos::new(),
            overflown: false,
        };
        assert(r@.starts =~= Seq::empty());
        r
    }

    proof fn lemma_start_place(&self, module_id: usize)
        requires
            self.wf(),
        ensures
            key_place(self@.starts, module_id) == key_place(self.modules@, (module_id, 0usize)),
    {
        let key = (module_id, 0usize);
        let starts = self@.starts;
        lemma_key_place(starts, module_id);
        lemma_key_place(self.modules@, key);
        let p = key_place(starts, module_id);
        let q = key_place(self.modules@, key);
        if p < q {
            assert(starts[p].0 == module_id);
            assert(self.modules@[p].0 == key);
        }
        if q < p {
            assert(self.modules@[q].0 == key);
            assert(starts[q].0 == module_id);
        }
    }

    /// The number of source files, and where each of them starts.
    pub fn start_positions(&self) -> (r: Vec<(usize, u32)>)
        requires
            self.wf(),
        ensures
            r@ == self@.starts,
    {
        let mut r: Vec<(usize, u32)> = Vec::new();
        let mut i: usize = 0;
        while i < self.modules.len()
            invariant
                self.wf(),
                i <= self.modules@.len(),
                r@ == self@.starts.take(i as int),
            decreases self.modules@.len() - i,
        {
            r.push((self.modules.key_at(i).0, *self.modules.value_at(i)));
            i = i + 1;
            assert(r@ =~= self@.starts.take(i as int));
        }
        assert(r@ =~= self@.starts);
        r
    }

    /// Where the source file of a module starts. A source file that did not come
    /// comes now, with its comments.
    pub fn get_start_pos(
        &mut self,
        modules: &Vec<ModuleInfo>,
        module_id: ModuleId,
    ) -> (r: u32)
        requires
            old(self).wf(),
            module_id.0 < modules@.len(),
            old(self)@.overflown || comments_ok(
                modules@,
                old(self)@.starts,
                old(self).global_comments,
            ),
        ensures
            final(self).wf(),
            final(self)@ == started(old(self)@, module_id.0, modules@[module_id.0 as int]),
            r == start_of(final(self)@, module_id.0),
            final(self)@.overflown || comments_ok(
                modules@,
                final(self)@.starts,
                final(self).global_comments,
            ),
    {
        let ghost before = self@;
        let ghost id = module_id.0;
        proof {
            self.lemma_start_place(id);
            lemma_key_place(before.starts, id);
        }
        match self.modules.get((module_id.0, 0)) {
            Some(pos) => {
                return *pos;
            },
            None => {},
        }
        let module: &ModuleInfo = &modules[module_id.0];
        let start_pos: u32 = self.next_pos;
        let room: u32 = u32::MAX - start_pos;
        let fits: bool = module.source_len < room && (!module.is_esm || comments_fit(
            &module.comments.leading,
            start_pos,
        ));
        assert(fits == file_fits(before, *module));
        let ghost entries = self.modules@;
        self.modules.insert((module_id.0, 0), start_pos);
        assert(self.modules@ == entries.push(((id, 0usize), start_pos)));
        let ghost starts = before.starts.push((id, start_pos));
        if fits {
            self.next_pos = start_pos + module.source_len + 1;
            if module.is_esm {
                // trailing comments are left out, because only JSDoc comments count
                fill_leading_comments(
                    start_pos,
                    &module.comments,
                    &mut self.global_comments,
                    CommentFilter::OnlyJsDoc,
                );
            }
        } else {
            self.overflown = true;
        }
        proof {
            assert(self@.starts =~= starts);
            assert forall|k: int| 0 <= k < self.modules@.len() implies (
            #[trigger] self.modules@[k]).0.1 == 0 by {
                if k < entries.len() {
                    assert(self.modules@[k] == entries[k]);
                }
            }
            lemma_key_place(starts, id);
            assert(starts[before.starts.len() as int].0 == id);
            assert(key_place(starts, id) == before.starts.len()) by {
                let p = key_place(starts, id);
                if p < before.starts.len() {
                    assert(starts[p] == before.starts[p]);
                }
            }
            if !self@.overflown {
                assert forall|pos: int| #[trigger]
                    comments_at(self.global_comments.leading@, pos) == comments_upto(
                        modules@,
                        starts,
                        starts.len(),
                        pos,
                    ) by {
                    lemma_comments_same(
                        modules@,
                        starts,
                        before.starts,
                        before.starts.len(),
                        pos,
                    );
                    assert(comments_at(old(self).global_comments.leading@, pos) == comments_upto(
                        modules@,
                        before.starts,
                        before.starts.len(),
                        pos,
                    ));
                }
            }
        }
        start_pos
    }

    /// Moves the positions of a declaration to where the source file of its module
    /// starts.
    pub fn adjust_spans(
        &mut self,
        modules: &Vec<ModuleInfo>,
        module_id: ModuleId,
        node: &mut Node,
    )
        requires
            old(self).wf(),
            module_id.0 < modules@.len(),
            old(self)@.overflown || comments_ok(
                modules@,
                old(self)@.starts,
                old(self).global_comments,
            ),
        ensures
            final(self).wf(),
            final(self)@.overflown || comments_ok(
                modules@,
                final(self)@.starts,
                final(self).global_comments,
            ),
            ({
                let after = started(old(self)@, module_id.0, modules@[module_id.0 as int]);
                let start = start_of(after, module_id.0) as nat;
                if can_move(old(node)@, start) {
                    final(self)@ == after && final(node)@ == moved(old(node)@, start)
                } else {
                    final(self)@ == (Out { overflown: true, ..after }) && final(node)@ == old(
                        node,
                    )@
                }
            }),
    {
        let start_pos: u32 = self.get_start_pos(modules, module_id);
        let ghost after = self@;
        if spans_fit(node, start_pos) {
            adjust_spans(start_pos, node);
        } else {
            self.overflown = true;
            assert(self@ =~= (Out { overflown: true, ..after }));
        }
    }

    /// Adds an item of a module.
    pub fn add_module_item(
        &mut self,
        modules: &Vec<ModuleInfo>,
        module_id: ModuleId,
        module_item: Node,
    )
        requires
            old(self).wf(),
            module_id.0 < modules@.len(),
            old(self)@.overflown || comments_ok(
                modules@,
                old(self)@.starts,
                old(self).global_comments,
            ),
        ensures
            final(self).wf(),
            final(self)@ == item_added(
                old(self)@,
                module_id.0,
                modules@[module_id.0 as int],
                module_item@,
            ),
            final(self)@.overflown || comments_ok(
                modules@,
                final(self)@.starts,
                final(self).global_comments,
            ),
    {
        let ghost before = self@;
        let start_pos: u32 = self.get_start_pos(modules, module_id);
        let ghost after = self@;
        let mut item: Node = module_item;
        if spans_fit(&item, start_pos) {
            adjust_spans(start_pos, &mut item);
            let ghost tree = item@;
            let info: &mut ModuleEmitInfo = self.module_emit_infos.get_or_create(module_id);
            info.items.push(item);
            proof {
                broadcast use group_trees;

                let infos = created(after.infos, module_id.0);
                let e = emitted_of(infos, module_id.0);
                assert(self@.infos == with_emitted(
                    infos,
                    module_id.0,
                    Emitted { items: e.items.push(tree), ..e },
                ));
                assert(self@ =~= item_added(
                    before,
                    module_id.0,
                    modules@[module_id.0 as int],
                    module_item@,
                ));
            }
        } else {
            self.overflown = true;
            assert(self@ =~= (Out { overflown: true, ..after }));
        }
    }
}

/// A declaration with another name.
pub open spec fn with_name(t: Tree, name: Seq<char>) -> Tree {
    if has_part(t, Role::Name) {
        Tree {
            children: t.children.update(
                place(t, Role::Name),
                Tree { text: name, ..child(t, Role::Name) },
            ),
            ..t
        }
    } else {
        t
    }
}

/// A declaration of one variable with another name for it.
pub open spec fn with_var_name(t: Tree, name: Seq<char>) -> Tree {
    if has_part(t, Role::Declarator) && has_part(child(t, Role::Declarator), Role::Name) {
        let declarator = child(t, Role::Declarator);
        let pattern = child(declarator, Role::Name);
        Tree {
            children: t.children.update(
                place(t, Role::Declarator),
                Tree {
                    children: declarator.children.update(
                        place(declarator, Role::Name),
                        with_name(pattern, name),
                    ),
                    ..declarator
                },
            ),
            ..t
        }
    } else {
        t
    }
}

/// A node whose part with the role has another span.
pub open spec fn with_part_span(t: Tree, role: Role, span: Span) -> Tree {
    if has_part(t, role) {
        Tree {
            span,
            children: t.children.update(place(t, role), Tree { span, ..child(t, role) }),
            ..t
        }
    } else {
        Tree { span, ..t }
    }
}

/// A declaration with another span.
pub open spec fn with_span(t: Tree, span: Span) -> Tree {
    if t.kind == Kind::ClassDecl {
        with_part_span(t, Role::Class, span)
    } else if t.kind == Kind::FnDecl {
        with_part_span(t, Role::Function, span)
    } else {
        Tree { span, ..t }
    }
}

/// The item for a declaration that has the name at the top level: an export where
/// the declaration is exported under that name, or else a declaration that says so.
pub open spec fn decl_item(t: Tree, name: Seq<char>, span: Span, is_export: bool) -> Tree {
    let named = if t.kind == Kind::VarDecl {
        with_var_name(t, name)
    } else {
        with_name(t, name)
    };
    if is_export {
        Tree {
            role: Role::Item,
            span,
            ..made(Kind::ExportDecl, seq![at(Role::Decl, with_span(named, no_span()))])
        }
    } else {
        let decl = at(Role::Item, with_span(named, span));
        if t.kind == Kind::TsInterfaceDecl || t.kind == Kind::TsTypeAliasDecl {
            decl
        } else {
            Tree { flags: Flags { declare: true, ..decl.flags }, ..decl }
        }
    }
}

proof fn lemma_trees_update(s: Seq<Node>, i: int, n: Node)
    requires
        0 <= i < s.len(),
    ensures
        trees(s.update(i, n)) == trees(s).update(i, n@),
{
    assert(trees(s.update(i, n)) =~= trees(s).update(i, n@));
}

/// Gives a declaration another name.
fn set_name(n: &mut Node, name: String)
    ensures
        final(n)@ == with_name(old(n)@, name@),
{
    let i: usize = n.find(Role::Name);
    if i < n.children.len() {
        let ghost before = n.children@;
        n.children[i].text = name;
        proof {
            lemma_trees_update(before, i as int, n.children@[i as int]);
            assert(n.children@ =~= before.update(i as int, n.children@[i as int]));
        }
    }
}

/// Gives a declaration of one variable another name for it.
fn set_var_name(n: &mut Node, name: String)
    ensures
        final(n)@ == with_var_name(old(n)@, name@),
{
    let i: usize = n.find(Role::Declarator);
    if i < n.children.len() {
        let j: usize = n.children[i].find(Role::Name);
        if j < n.children[i].children.len() {
            let ghost before = n.children@;
            let ghost inner = n.children@[i as int].children@;
            set_name(&mut n.children[i].children[j], name);
            proof {
                let changed = n.children@[i as int];
                lemma_trees_update(inner, j as int, changed.children@[j as int]);
                assert(changed.children@ =~= inner.update(j as int, changed.children@[j as int]));
                lemma_trees_update(before, i as int, changed);
                assert(n.children@ =~= before.update(i as int, changed));
            }
        }
    }
}

fn set_part_span(n: &mut Node, role: Role, span: Span)
    ensures
        final(n)@ == with_part_span(old(n)@, role, span),
{
    let i: usize = n.find(role);
    n.span = span;
    if i < n.children.len() {
        let ghost before = n.children@;
        n.children[i].span = span;
        proof {
            lemma_trees_update(before, i as int, n.children@[i as int]);
            assert(n.children@ =~= before.update(i as int, n.children@[i as int]));
        }
    }
}

/// Gives a declaration another span.
fn set_span(n: &mut Node, span: Span)
    ensures
        final(n)@ == with_span(old(n)@, span),
{
    if n.kind == Kind::ClassDecl {
        set_part_span(n, Role::Class, span);
    } else if n.kind == Kind::FnDecl {
        set_part_span(n, Role::Function, span);
    } else {
        n.span = span;
    }
}

/// The item for a declaration that has the name at the top level.
pub fn make_decl_item(decl: Node, name: &str, span: Span, is_export: bool) -> (r: Node)
    ensures
        r@ == decl_item(decl@, name@, span, is_export),
{
    let kind: Kind = decl.kind;
    let mut decl: Node = decl;
    if kind == Kind::VarDecl {
        set_var_name(&mut decl, name.to_owned());
    } else {
        set_name(&mut decl, name.to_owned());
    }
    if is_export {
        set_span(&mut decl, Span::dummy());
        let mut r: Node = make(Kind::ExportDecl, one(placed(Role::Decl, decl)));
        r.role = Role::Item;
        r.span = span;
        r
    } else {
        set_span(&mut decl, span);
        let mut r: Node = placed(Role::Item, decl);
        if kind != Kind::TsInterfaceDecl && kind != Kind::TsTypeAliasDecl {
            r.flags.declare = true;
        }
        r
    }
}

}
