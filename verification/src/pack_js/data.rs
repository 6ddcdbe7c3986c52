//! What is known of each module that takes part.

use vstd::prelude::*;

use crate::collections::{
    distinct_keys, has_key, key_place, lemma_key_place, lemma_key_place_same, TextMap,
};
use crate::specifier::ModuleSpecifier;
use crate::syntax::{Node, Tree};
use crate::text::{
    decimal, decimal_text, insert_sorted, lemma_decimal_injective, lemma_text_less_transitive,
    lemma_text_order, same_text, sorted, text_less, texts,
};

verus! {

/// The number of a module, in the order in which modules are first mentioned.
#[derive(Debug, Clone, Copy, PartialEq, Eq, Structural)]
pub struct ModuleId(pub usize);

/// The name of the object that holds what a module exports.
pub open spec fn code_name(id: int) -> Seq<char> {
    "pack"@ + decimal(id as nat)
}

impl ModuleId {
    /// The name of the object that holds what the module exports.
    pub fn to_code_string(&self) -> (r: String)
        ensures
            r@ == code_name(self.0 as int),
    {
        let number: String = decimal_text(self.0);
        let r: String = "pack".to_owned().concat(number.as_str());
        r
    }
}

/// Different modules have different names.
pub proof fn law_code_names_differ(a: nat, b: nat)
    requires
        a != b,
    ensures
        code_name(a as int) != code_name(b as int),
{
    if code_name(a as int) == code_name(b as int) {
        assert(code_name(a as int).skip("pack"@.len() as int) =~= decimal(a));
        assert(code_name(b as int).skip("pack"@.len() as int) =~= decimal(b));
        lemma_decimal_injective(a, b);
    }
}

/// A name that a module exports: what it is called in the module, and what it is
/// called outside where that differs.
#[derive(Debug)]
pub struct ExportName {
    pub local_name: String,
    pub export_name: Option<String>,
    /// Whether the export stays where it stands in the module.
    pub in_place: bool,
}

/// What an [`ExportName`] stands for.
pub struct Export {
    pub local: Seq<char>,
    pub exported: Option<Seq<char>>,
    pub in_place: bool,
}

impl Export {
    /// What the export is called outside.
    pub open spec fn name(self) -> Seq<char> {
        match self.exported {
            Some(name) => name,
            None => self.local,
        }
    }
}

impl ExportName {
    pub open spec fn view(&self) -> Export {
        Export {
            local: self.local_name@,
            exported: match self.export_name {
                Some(name) => Some(name@),
                None => None,
            },
            in_place: self.in_place,
        }
    }

    /// What the export is called outside.
    pub fn export_name(&self) -> (r: &String)
        ensures
            r@ == self@.name(),
    {
        match &self.export_name {
            Some(name) => name,
            None => &self.local_name,
        }
    }
}

/// What is exported on from another module.
#[derive(Debug)]
pub enum ReExportName {
    /// One export of the other module.
    Named(ExportName),
    /// The other module as an object.
    Namespace(String),
    /// Whatever the other module exports.
    All,
}

/// What a [`ReExportName`] stands for.
pub enum Passed {
    Named(Export),
    Namespace(Seq<char>),
    All,
}

impl ReExportName {
    pub open spec fn view(&self) -> Passed {
        match self {
            ReExportName::Named(name) => Passed::Named(name@),
            ReExportName::Namespace(name) => Passed::Namespace(name@),
            ReExportName::All => Passed::All,
        }
    }
}

/// An export that comes from another module.
#[derive(Debug)]
pub struct ReExport {
    pub name: ReExportName,
    pub specifier: ModuleSpecifier,
    pub module_id: ModuleId,
}

/// What a [`ReExport`] stands for.
pub struct PassedOn {
    pub name: Passed,
    pub specifier: Seq<char>,
    pub module_id: usize,
}

impl ReExport {
    pub open spec fn view(&self) -> PassedOn {
        PassedOn {
            name: self.name@,
            specifier: self.specifier@,
            module_id: self.module_id.0,
        }
    }
}

/// What is known of one module.
#[derive(Debug)]
pub struct ModuleData {
    pub id: ModuleId,
    /// Whether the module awaits something at its top level.
    pub has_tla: bool,
    pub exports: Vec<ExportName>,
    pub re_exports: Vec<ReExport>,
    /// The module's syntax as it goes into the output.
    pub module: Option<Node>,
}

/// What a [`ModuleData`] stands for.
pub struct Data {
    pub has_tla: bool,
    pub exports: Seq<Export>,
    pub re_exports: Seq<PassedOn>,
    pub module: Option<Tree>,
}

/// What a sequence of exports stands for.
pub open spec fn exports_of(s: Seq<ExportName>) -> Seq<Export> {
    Seq::new(s.len(), |i: int| s[i]@)
}

/// What a sequence of exports from other modules stands for.
pub open spec fn re_exports_of(s: Seq<ReExport>) -> Seq<PassedOn> {
    Seq::new(s.len(), |i: int| s[i]@)
}

/// What is known of a module that was only mentioned.
pub open spec fn no_data() -> Data {
    Data {
        has_tla: false,
        exports: Seq::empty(),
        re_exports: Seq::empty(),
        module: None,
    }
}

impl ModuleData {
    pub open spec fn view(&self) -> Data {
        Data {
            has_tla: self.has_tla,
            exports: exports_of(self.exports@),
            re_exports: re_exports_of(self.re_exports@),
            module: match self.module {
                Some(module) => Some(module@),
                None => None,
            },
        }
    }

    /// Adds an export that has the same name inside and outside.
    pub fn add_export_name(&mut self, name: String)
        ensures
            final(self).id == old(self).id,
            final(self)@ == (Data {
                exports: old(self)@.exports.push(Export { local: name@, exported: None, in_place: false }),
                ..old(self)@
            }),
    {
        self.add_export(ExportName { local_name: name, export_name: None, in_place: false });
    }

    /// Adds an export.
    pub fn add_export(&mut self, name: ExportName)
        ensures
            final(self).id == old(self).id,
            final(self)@ == (Data { exports: old(self)@.exports.push(name@), ..old(self)@ }),
    {
        let ghost before = self@;
        self.exports.push(name);
        assert(self@.exports =~= before.exports.push(name@));
    }

    /// Adds an export from another module.
    pub fn add_re_export(&mut self, re_export: ReExport)
        ensures
            final(self).id == old(self).id,
            final(self)@ == (Data {
                re_exports: old(self)@.re_exports.push(re_export@),
                ..old(self)@
            }),
    {
        let ghost before = self@;
        self.re_exports.push(re_export);
        assert(self@.re_exports =~= before.re_exports.push(re_export@));
    }
}

/// The modules in the order in which they are first mentioned, each with what is
/// known of it. The number of a module is its place.
pub struct ModuleDataCollection {
    pub module_data: TextMap<ModuleData>,
}

/// The modules after one is mentioned.
pub open spec fn mentioned(s: Seq<(Seq<char>, Data)>, specifier: Seq<char>) -> Seq<
    (Seq<char>, Data),
> {
    if has_key(s, specifier) {
        s
    } else {
        s.push((specifier, no_data()))
    }
}

/// What is known of a module that was mentioned.
pub open spec fn data_of(s: Seq<(Seq<char>, Data)>, specifier: Seq<char>) -> Data {
    s[key_place(s, specifier)].1
}

/// The modules with other data for one that was mentioned.
pub open spec fn with_data(
    s: Seq<(Seq<char>, Data)>,
    specifier: Seq<char>,
    data: Data,
) -> Seq<(Seq<char>, Data)> {
    s.update(key_place(s, specifier), (specifier, data))
}

/// Mentioning a module leaves those that are there in their places.
pub proof fn lemma_mentioned(s: Seq<(Seq<char>, Data)>, specifier: Seq<char>, other: Seq<char>)
    ensures
        has_key(mentioned(s, specifier), specifier),
        has_key(s, other) ==> has_key(mentioned(s, specifier), other) && key_place(
            mentioned(s, specifier),
            other,
        ) == key_place(s, other) && data_of(mentioned(s, specifier), other) == data_of(s, other),
{
    let after = mentioned(s, specifier);
    lemma_key_place(s, specifier);
    lemma_key_place(s, other);
    lemma_key_place(after, specifier);
    lemma_key_place(after, other);
    if !has_key(s, specifier) {
        assert(after[s.len() as int].0 == specifier);
        if has_key(s, other) {
            let p = key_place(s, other);
            let q = key_place(after, other);
            assert(after[p] == s[p]);
            if q < p {
                assert(after[q] == s[q]);
            }
        }
    }
}

/// Other data for a module leave the modules in their places.
pub proof fn lemma_with_data(
    s: Seq<(Seq<char>, Data)>,
    specifier: Seq<char>,
    data: Data,
    other: Seq<char>,
)
    requires
        has_key(s, specifier),
    ensures
        key_place(with_data(s, specifier, data), other) == key_place(s, other),
        has_key(with_data(s, specifier, data), other) == has_key(s, other),
        data_of(with_data(s, specifier, data), specifier) == data,
        other != specifier && has_key(s, other) ==> data_of(with_data(s, specifier, data), other)
            == data_of(s, other),
{
    let after = with_data(s, specifier, data);
    lemma_key_place(s, specifier);
    lemma_key_place(s, other);
    lemma_key_place_same(s, after, other);
    lemma_key_place_same(s, after, specifier);
}

/// Whether a module itself gives a name to an export.
pub open spec fn declares(data: Data, name: Seq<char>) -> bool {
    ||| exists|i: int| 0 <= i < data.exports.len() && (#[trigger] data.exports[i]).name() == name
    ||| exists|i: int|
        0 <= i < data.re_exports.len() && passes(#[trigger] data.re_exports[i], name)
}

/// Whether an export from another module has the name.
pub open spec fn passes(re_export: PassedOn, name: Seq<char>) -> bool {
    match re_export.name {
        Passed::Named(export) => export.name() == name,
        Passed::Namespace(namespace) => namespace == name,
        Passed::All => false,
    }
}

/// Whether a module exports whatever another exports.
pub open spec fn passes_all_of(data: Data, specifier: Seq<char>) -> bool {
    exists|i: int|
        0 <= i < data.re_exports.len() && (#[trigger] data.re_exports[i]).name is All
            && data.re_exports[i].specifier == specifier
}

/// Whether each module of the path exports whatever the next one exports.
pub open spec fn star_path(s: Seq<(Seq<char>, Data)>, path: Seq<Seq<char>>) -> bool {
    forall|i: int|
        #![trigger path[i]]
        0 <= i < path.len() - 1 ==> has_key(s, path[i]) && passes_all_of(
            data_of(s, path[i]),
            path[i + 1],
        )
}

/// Whether a path leads from one module to another.
pub open spec fn leads(
    s: Seq<(Seq<char>, Data)>,
    path: Seq<Seq<char>>,
    from: Seq<char>,
    to: Seq<char>,
) -> bool {
    path.len() > 0 && path[0] == from && path.last() == to && star_path(s, path)
}

/// Whether everything that the second module exports, the first exports too.
pub open spec fn reaches(s: Seq<(Seq<char>, Data)>, from: Seq<char>, to: Seq<char>) -> bool {
    exists|path: Seq<Seq<char>>| leads(s, path, from, to)
}

/// Whether a module gives a name to an export that others have of it: the default export
/// is not among what a module exports with everything else of another.
pub open spec fn gives_to(data: Data, name: Seq<char>, is_own: bool) -> bool {
    declares(data, name) && (is_own || name != "default"@)
}

/// Whether a module exports a name: it or a module all of whose exports it
/// exports gives the name to an export.
pub open spec fn exports_name(
    s: Seq<(Seq<char>, Data)>,
    specifier: Seq<char>,
    name: Seq<char>,
) -> bool {
    exists|to: Seq<char>| #[trigger]
        reaches(s, specifier, to) && has_key(s, to) && gives_to(
            data_of(s, to),
            name,
            to == specifier,
        )
}

/// Whether these are the names that a module exports, in order.
pub open spec fn are_export_names(
    s: Seq<(Seq<char>, Data)>,
    specifier: Seq<char>,
    names: Seq<Seq<char>>,
) -> bool {
    &&& sorted(names)
    &&& forall|name: Seq<char>| #[trigger]
        names.contains(name) <==> exports_name(s, specifier, name)
}

/// The names that a module exports, in order.
pub open spec fn export_names(s: Seq<(Seq<char>, Data)>, specifier: Seq<char>) -> Seq<Seq<char>> {
    choose|names: Seq<Seq<char>>| are_export_names(s, specifier, names)
}

proof fn lemma_sorted_unique(a: Seq<Seq<char>>, b: Seq<Seq<char>>)
    requires
        sorted(a),
        sorted(b),
        forall|t: Seq<char>| #[trigger] a.contains(t) <==> b.contains(t),
    ensures
        a == b,
    decreases a.len(),
{
    if a.len() == 0 {
        if b.len() > 0 {
            assert(b.contains(b[0]));
            assert(!a.contains(b[0]));
        }
        assert(a =~= b);
    } else {
        assert(a.contains(a.last()));
        assert(b.contains(a.last()));
        assert(b.contains(b.last()));
        assert(a.contains(b.last()));
        let i = a.index_of(b.last());
        let j = b.index_of(a.last());
        lemma_text_order(a.last(), b.last());
        if i < a.len() - 1 {
            assert(text_less(a[i], a[a.len() - 1]));
        }
        if j < b.len() - 1 {
            assert(text_less(b[j], b[b.len() - 1]));
        }
        assert(a.last() == b.last());
        let c = a.drop_last();
        let d = b.drop_last();
        assert forall|t: Seq<char>| #[trigger] c.contains(t) <==> d.contains(t) by {
            lemma_text_order(t, a.last());
            if c.contains(t) {
                let k = c.index_of(t);
                assert(a[k] == t);
                assert(text_less(a[k], a[a.len() - 1]));
                assert(a.contains(t));
                let m = b.index_of(t);
                assert(d[m] == t);
            }
            if d.contains(t) {
                let k = d.index_of(t);
                assert(b[k] == t);
                assert(text_less(b[k], b[b.len() - 1]));
                assert(b.contains(t));
                assert(a.contains(t));
                let m = a.index_of(t);
                assert(a[m] == t);
                assert(c[m] == t);
            }
        }
        lemma_sorted_unique(c, d);
        assert(a =~= c.push(a.last()));
        assert(b =~= d.push(b.last()));
    }
}

/// The modules named by the exports of the first `n` modules.
spec fn targets_upto(s: Seq<(Seq<char>, Data)>, n: nat) -> Set<Seq<char>>
    decreases n,
{
    if n == 0 {
        Set::empty()
    } else {
        targets_upto(s, (n - 1) as nat).union(
            s[n - 1].1.re_exports.map_values(|e: PassedOn| e.specifier).to_set(),
        )
    }
}

proof fn lemma_targets(s: Seq<(Seq<char>, Data)>, n: nat)
    requires
        n <= s.len(),
    ensures
        targets_upto(s, n).finite(),
        forall|i: int, j: int|
            #![trigger s[i].1.re_exports[j]]
            0 <= i < n && 0 <= j < s[i].1.re_exports.len() ==> targets_upto(s, n).contains(
                s[i].1.re_exports[j].specifier,
            ),
    decreases n,
{
    if n > 0 {
        lemma_targets(s, (n - 1) as nat);
        let last = s[n - 1].1.re_exports.map_values(|e: PassedOn| e.specifier);
        vstd::seq_lib::seq_to_set_is_finite(last);
        assert forall|j: int| 0 <= j < s[n - 1].1.re_exports.len() implies targets_upto(
            s,
            n,
        ).contains((#[trigger] s[n - 1].1.re_exports[j]).specifier) by {
            assert(last[j] == s[n - 1].1.re_exports[j].specifier);
            assert(last.contains(last[j]));
        }
    }
}

/// Whether the names of the module are among the names found.
spec fn names_found(data: Data, names: Seq<Seq<char>>, is_own: bool) -> bool {
    forall|name: Seq<char>| #[trigger] gives_to(data, name, is_own) ==> names.contains(name)
}

/// Whether the modules whose exports the module exports are among the modules
/// found.
spec fn targets_found(data: Data, found: Seq<Seq<char>>) -> bool {
    forall|to: Seq<char>| #[trigger] passes_all_of(data, to) ==> found.contains(to)
}

proof fn lemma_path_found(
    s: Seq<(Seq<char>, Data)>,
    found: Seq<Seq<char>>,
    path: Seq<Seq<char>>,
    n: int,
)
    requires
        star_path(s, path),
        0 <= n < path.len(),
        found.contains(path[0]),
        forall|i: int|
            0 <= i < found.len() && has_key(s, #[trigger] found[i]) ==> targets_found(
                data_of(s, found[i]),
                found,
            ),
    ensures
        found.contains(path[n]),
    decreases n,
{
    if n > 0 {
        lemma_path_found(s, found, path, n - 1);
        let i = found.index_of(path[n - 1]);
        assert(found[i] == path[n - 1]);
        assert(passes_all_of(data_of(s, path[n - 1]), path[n - 1 + 1]));
    }
}

impl ModuleDataCollection {
    /// The modules, each with what is known of it.
    pub open spec fn view(&self) -> Seq<(Seq<char>, Data)> {
        Seq::new(
            self.module_data@.len(),
            |i: int| (self.module_data@[i].0, self.module_data@[i].1@),
        )
    }

    /// The number of each module is its place.
    pub open spec fn wf(&self) -> bool {
        &&& self.module_data.wf()
        &&& forall|i: int|
            0 <= i < self.module_data@.len() ==> (#[trigger] self.module_data@[i]).1.id.0 == i
    }

    /// No module stands twice.
    pub proof fn lemma_distinct(&self)
        requires
            self.wf(),
        ensures
            distinct_keys(self@),
    {
        self.module_data.lemma_distinct();
        assert forall|i: int, j: int| 0 <= i < j < self@.len() implies (#[trigger] self@[i]).0 != (
        #[trigger] self@[j]).0 by {
            assert(self.module_data@[i].0 != self.module_data@[j].0);
        }
    }

    pub fn new() -> (r: ModuleDataCollection)
        ensures
            r.wf(),
            r@ == Seq::<(Seq<char>, Data)>::empty(),
    {
        let r = ModuleDataCollection { module_data: TextMap::new() };
        assert(r@ =~= Seq::<(Seq<char>, Data)>::empty());
        r
    }

    /// What is known of a module, if it was mentioned.
    pub fn get(&self, specifier: &ModuleSpecifier) -> (r: Option<&ModuleData>)
        requires
            self.wf(),
        ensures
            r is Some <==> has_key(self@, specifier@),
            r matches Some(data) ==> data@ == data_of(self@, specifier@) && data.id.0 == key_place(
                self@,
                specifier@,
            ),
    {
        proof {
            lemma_key_place_same(self@, self.module_data@, specifier@);
            lemma_key_place(self@, specifier@);
        }
        self.module_data.get(specifier.text.as_str())
    }

    /// Mentions a module. This gives its number.
    pub fn mention(&mut self, specifier: &ModuleSpecifier) -> (r: ModuleId)
        requires
            old(self).wf(),
        ensures
            final(self).wf(),
            final(self)@ == mentioned(old(self)@, specifier@),
            has_key(final(self)@, specifier@),
            r.0 == key_place(final(self)@, specifier@),
    {
        let ghost before = self@;
        proof {
            lemma_key_place_same(self@, self.module_data@, specifier@);
            lemma_key_place(self@, specifier@);
            lemma_key_place(self.module_data@, specifier@);
        }
        match self.module_data.place(specifier.text.as_str()) {
            Some(i) => ModuleId(i),
            None => {
                let next_id: usize = self.module_data.len();
                let data = ModuleData {
                    id: ModuleId(next_id),
                    has_tla: false,
                    exports: Vec::new(),
                    re_exports: Vec::new(),
                    module: None,
                };
                assert(data@.exports =~= Seq::<Export>::empty());
                assert(data@.re_exports =~= Seq::<PassedOn>::empty());
                self.module_data.insert(specifier.text.clone(), data);
                assert(self@ =~= before.push((specifier@, no_data())));
                proof {
                    lemma_key_place(self@, specifier@);
                    assert(self@[next_id as int].0 == specifier@);
                    if key_place(self@, specifier@) < next_id {
                        assert(before[key_place(self@, specifier@)]
                            == self@[key_place(self@, specifier@)]);
                    }
                }
                ModuleId(next_id)
            },
        }
    }

    /// What is known of a module, to be changed. The module is mentioned by this.
    pub fn get_mut(&mut self, specifier: &ModuleSpecifier) -> (r: &mut ModuleData)
        requires
            old(self).wf(),
        ensures
            r@ == data_of(mentioned(old(self)@, specifier@), specifier@),
            r.id.0 == key_place(mentioned(old(self)@, specifier@), specifier@),
            final(r).id == r.id ==> final(self).wf(),
            final(self)@ =~= with_data(
                mentioned(old(self)@, specifier@),
                specifier@,
                final(r)@,
            ),
    {
        let id: ModuleId = self.mention(specifier);
        proof {
            lemma_key_place(self@, specifier@);
        }
        let i: usize = id.0;
        self.module_data.value_at_mut(i)
    }

    /// The names that a module exports, in order: those that it names itself, and
    /// those of the modules whose exports it all exports, of theirs, and so on.
    pub fn get_export_names(&self, specifier: &ModuleSpecifier) -> (r: Vec<String>)
        requires
            self.wf(),
        ensures
            texts(r@) == export_names(self@, specifier@),
            are_export_names(self@, specifier@, texts(r@)),
    {
        let ghost s = self@;
        let ghost all = targets_upto(s, s.len()).insert(specifier@);
        let mut result: Vec<String> = Vec::new();
        let mut seen: TextMap<()> = TextMap::new();
        seen.insert(specifier.text.clone(), ());
        let mut i: usize = 0;
        proof {
            lemma_targets(s, s.len());
            let path = seq![specifier@];
            assert(leads(s, path, specifier@, specifier@));
            assert(seen@[0].0 == specifier@);
        }
        while i < seen.len()
            invariant
                self.wf(),
                s == self@,
                seen.wf(),
                i <= seen@.len(),
                all == targets_upto(s, s.len()).insert(specifier@),
                targets_upto(s, s.len()).finite(),
                seen@.len() > 0,
                seen@[0].0 == specifier@,
                forall|k: int|
                    0 <= k < seen@.len() ==> reaches(s, specifier@, (#[trigger] seen@[k]).0)
                        && all.contains(seen@[k].0),
                forall|k: int|
                    0 <= k < i && has_key(s, (#[trigger] seen@[k]).0) ==> names_found(
                        data_of(s, seen@[k].0),
                        texts(result@),
                        k == 0,
                    ) && targets_found(data_of(s, seen@[k].0), keys_of(seen@)),
                sorted(texts(result@)),
                forall|name: Seq<char>| #[trigger]
                    texts(result@).contains(name) ==> exports_name(s, specifier@, name),
            decreases all.len() - i,
        {
            proof {
                seen.lemma_distinct();
                lemma_keys_bounded(seen@, all);
            }
            let next = ModuleSpecifier { text: seen.key_at(i).clone() };
            match self.get(&next) {
                Some(data) => {
                    proof {
                        lemma_key_place(s, next@);
                    }
                    let ghost before = seen@;
                    data.add_names(i == 0, &mut result, &mut seen);
                    proof {
                        let at = key_place(s, next@);
                        assert forall|k: int| 0 <= k < seen@.len() implies reaches(
                            s,
                            specifier@,
                            (#[trigger] seen@[k]).0,
                        ) && all.contains(seen@[k].0) by {
                            if k < before.len() {
                                assert(before[k] == seen@[k]);
                            } else {
                                let to = seen@[k].0;
                                assert(passes_all_of(data@, to));
                                lemma_reaches_on(s, specifier@, next@, to);
                                let j = choose|j: int|
                                    0 <= j < data@.re_exports.len() && (
                                    #[trigger] data@.re_exports[j]).name is All
                                        && data@.re_exports[j].specifier == to;
                                assert(s[at].1.re_exports[j].specifier == to);
                                lemma_targets(s, s.len());
                            }
                        }
                        assert forall|name: Seq<char>| #[trigger]
                            texts(result@).contains(name) implies exports_name(
                            s,
                            specifier@,
                            name,
                        ) by {
                            if gives_to(data@, name, i == 0) {
                                assert(reaches(s, specifier@, next@));
                            }
                        }
                        assert forall|k: int|
                            0 <= k < i + 1 && has_key(s, (#[trigger] seen@[k]).0) implies names_found(
                            data_of(s, seen@[k].0),
                            texts(result@),
                            k == 0,
                        ) && targets_found(data_of(s, seen@[k].0), keys_of(seen@)) by {
                            assert(seen@[k] == before[k]);
                            if k < i {
                                assert forall|to: Seq<char>| #[trigger]
                                    passes_all_of(data_of(s, seen@[k].0), to) implies keys_of(
                                    seen@,
                                ).contains(to) by {
                                    assert(keys_of(before).contains(to));
                                    let m = keys_of(before).index_of(to);
                                    assert(before[m] == seen@[m]);
                                    assert(keys_of(seen@)[m] == to);
                                }
                            }
                        }
                    }
                },
                None => {},
            }
            i = i + 1;
        }
        proof {
            let names = texts(result@);
            let found = keys_of(seen@);
            assert forall|name: Seq<char>| #[trigger] names.contains(name) <==> exports_name(
                s,
                specifier@,
                name,
            ) by {
                if exports_name(s, specifier@, name) {
                    let to = choose|to: Seq<char>| #[trigger]
                        reaches(s, specifier@, to) && has_key(s, to) && gives_to(
                            data_of(s, to),
                            name,
                            to == specifier@,
                        );
                    let path = choose|path: Seq<Seq<char>>| leads(s, path, specifier@, to);
                    assert(found[0] == path[0]);
                    assert forall|k: int|
                        0 <= k < found.len() && has_key(s, #[trigger] found[k]) implies targets_found(
                        data_of(s, found[k]),
                        found,
                    ) by {
                        assert(found[k] == seen@[k].0);
                    }
                    lemma_path_found(s, found, path, path.len() - 1);
                    let k = found.index_of(to);
                    assert(found[k] == seen@[k].0);
                    seen.lemma_distinct();
                    if k > 0 {
                        assert(seen@[0].0 != seen@[k].0);
                    }
                    assert(gives_to(data_of(s, to), name, k == 0));
                }
            }
            assert(are_export_names(s, specifier@, names));
            lemma_sorted_unique(names, export_names(s, specifier@));
        }
        result
    }
}

impl ModuleDataCollection {
    /// The modules whose exports a module exports too, with itself: those that it exports
    /// with everything, those that they do, and so on.
    pub fn get_star_modules(&self, specifier: &ModuleSpecifier) -> (r: TextMap<()>)
        requires
            self.wf(),
        ensures
            r.wf(),
            forall|to: Seq<char>| #[trigger]
                has_key(r@, to) <==> reaches(self@, specifier@, to),
    {
        let ghost s = self@;
        let ghost all = targets_upto(s, s.len()).insert(specifier@);
        let mut names: Vec<String> = Vec::new();
        let mut seen: TextMap<()> = TextMap::new();
        seen.insert(specifier.text.clone(), ());
        let mut i: usize = 0;
        proof {
            lemma_targets(s, s.len());
            let path = seq![specifier@];
            assert(leads(s, path, specifier@, specifier@));
            assert(seen@[0].0 == specifier@);
        }
        while i < seen.len()
            invariant
                self.wf(),
                s == self@,
                seen.wf(),
                i <= seen@.len(),
                all == targets_upto(s, s.len()).insert(specifier@),
                targets_upto(s, s.len()).finite(),
                seen@.len() > 0,
                seen@[0].0 == specifier@,
                sorted(texts(names@)),
                forall|k: int|
                    0 <= k < seen@.len() ==> reaches(s, specifier@, (#[trigger] seen@[k]).0)
                        && all.contains(seen@[k].0),
                forall|k: int|
                    0 <= k < i && has_key(s, (#[trigger] seen@[k]).0) ==> targets_found(
                        data_of(s, seen@[k].0),
                        keys_of(seen@),
                    ),
            decreases all.len() - i,
        {
            proof {
                seen.lemma_distinct();
                lemma_keys_bounded(seen@, all);
            }
            let next = ModuleSpecifier { text: seen.key_at(i).clone() };
            match self.get(&next) {
                Some(data) => {
                    proof {
                        lemma_key_place(s, next@);
                    }
                    let ghost before = seen@;
                    data.add_names(i == 0, &mut names, &mut seen);
                    proof {
                        let at = key_place(s, next@);
                        assert forall|k: int| 0 <= k < seen@.len() implies reaches(
                            s,
                            specifier@,
                            (#[trigger] seen@[k]).0,
                        ) && all.contains(seen@[k].0) by {
                            if k < before.len() {
                                assert(before[k] == seen@[k]);
                            } else {
                                let to = seen@[k].0;
                                assert(passes_all_of(data@, to));
                                lemma_reaches_on(s, specifier@, next@, to);
                                let j = choose|j: int|
                                    0 <= j < data@.re_exports.len() && (
                                    #[trigger] data@.re_exports[j]).name is All
                                        && data@.re_exports[j].specifier == to;
                                assert(s[at].1.re_exports[j].specifier == to);
                                lemma_targets(s, s.len());
                            }
                        }
                        assert forall|k: int|
                            0 <= k < i + 1 && has_key(
                                s,
                                (#[trigger] seen@[k]).0,
                            ) implies targets_found(data_of(s, seen@[k].0), keys_of(seen@)) by {
                            assert(seen@[k] == before[k]);
                            if k < i {
                                assert forall|to: Seq<char>| #[trigger]
                                    passes_all_of(data_of(s, seen@[k].0), to) implies keys_of(
                                    seen@,
                                ).contains(to) by {
                                    assert(keys_of(before).contains(to));
                                    let m = keys_of(before).index_of(to);
                                    assert(before[m] == seen@[m]);
                                    assert(keys_of(seen@)[m] == to);
                                }
                            }
                        }
                    }
                },
                None => {},
            }
            i = i + 1;
        }
        proof {
            let found = keys_of(seen@);
            assert forall|to: Seq<char>| #[trigger] has_key(seen@, to) <==> reaches(
                s,
                specifier@,
                to,
            ) by {
                lemma_key_place(seen@, to);
                if reaches(s, specifier@, to) {
                    let path = choose|path: Seq<Seq<char>>| leads(s, path, specifier@, to);
                    assert(found[0] == path[0]);
                    assert forall|k: int|
                        0 <= k < found.len() && has_key(s, #[trigger] found[k]) implies targets_found(
                        data_of(s, found[k]),
                        found,
                    ) by {
                        assert(found[k] == seen@[k].0);
                    }
                    lemma_path_found(s, found, path, path.len() - 1);
                    let k = found.index_of(to);
                    assert(found[k] == seen@[k].0);
                }
            }
        }
        seen
    }
}

/// The keys of the entries.
spec fn keys_of(s: Seq<(Seq<char>, ())>) -> Seq<Seq<char>> {
    Seq::new(s.len(), |i: int| s[i].0)
}

proof fn lemma_keys_bounded(s: Seq<(Seq<char>, ())>, all: Set<Seq<char>>)
    requires
        distinct_keys(s),
        all.finite(),
        forall|k: int| 0 <= k < s.len() ==> all.contains((#[trigger] s[k]).0),
    ensures
        s.len() <= all.len(),
{
    let keys = keys_of(s);
    assert(keys.no_duplicates()) by {
        assert forall|i: int, j: int|
            0 <= i < keys.len() && 0 <= j < keys.len() && i != j implies keys[i] != keys[j] by {
            if i < j {
                assert(s[i].0 != s[j].0);
            } else {
                assert(s[j].0 != s[i].0);
            }
        }
    }
    keys.unique_seq_to_set();
    assert forall|t: Seq<char>| keys.to_set().contains(t) implies all.contains(t) by {
        let i = keys.index_of(t);
        assert(keys[i] == s[i].0);
    }
    vstd::set_lib::lemma_len_subset(keys.to_set(), all);
}

proof fn lemma_reaches_on(
    s: Seq<(Seq<char>, Data)>,
    from: Seq<char>,
    mid: Seq<char>,
    to: Seq<char>,
)
    requires
        reaches(s, from, mid),
        has_key(s, mid),
        passes_all_of(data_of(s, mid), to),
    ensures
        reaches(s, from, to),
{
    let path = choose|path: Seq<Seq<char>>| leads(s, path, from, mid);
    let longer = path.push(to);
    assert forall|i: int| #![trigger longer[i]] 0 <= i < longer.len() - 1 implies has_key(
        s,
        longer[i],
    ) && passes_all_of(data_of(s, longer[i]), longer[i + 1]) by {
        assert(longer[i] == path[i]);
        if i < path.len() - 1 {
            assert(longer[i + 1] == path[i + 1]);
        }
    }
    assert(leads(s, longer, from, to));
}

/// Adds a name, but for that of a default export unless it is wanted.
fn add_name(names: &mut Vec<String>, name: &str, with_default: bool)
    requires
        sorted(texts(old(names)@)),
    ensures
        sorted(texts(final(names)@)),
        forall|other: Seq<char>| #[trigger]
            texts(final(names)@).contains(other) <==> texts(old(names)@).contains(other) || other
                == name@ && (with_default || other != "default"@),
{
    if with_default || !same_text(name, "default") {
        insert_sorted(names, name);
    }
}

impl ModuleData {
    /// Adds the names that the module itself gives to the names found, and the
    /// modules whose exports it exports to the modules found.
    fn add_names(&self, is_own: bool, names: &mut Vec<String>, found: &mut TextMap<()>)
        requires
            sorted(texts(old(names)@)),
            old(found).wf(),
        ensures
            sorted(texts(final(names)@)),
            forall|name: Seq<char>| #[trigger]
                texts(final(names)@).contains(name) <==> texts(old(names)@).contains(name)
                    || gives_to(self@, name, is_own),
            final(found).wf(),
            old(found)@.len() <= final(found)@.len(),
            forall|i: int|
                0 <= i < old(found)@.len() ==> #[trigger] final(found)@[i] == old(found)@[i],
            forall|i: int|
                old(found)@.len() <= i < final(found)@.len() ==> passes_all_of(
                    self@,
                    (#[trigger] final(found)@[i]).0,
                ),
            targets_found(self@, keys_of(final(found)@)),
    {
        let ghost old_names = texts(names@);
        let ghost old_found = found@;
        let ghost data = self@;
        let mut i: usize = 0;
        while i < self.exports.len()
            invariant
                i <= self.exports@.len(),
                data == self@,
                sorted(texts(names@)),
                forall|name: Seq<char>| #[trigger]
                    texts(names@).contains(name) <==> old_names.contains(name) || exists|k: int|
                        0 <= k < i && (#[trigger] data.exports[k]).name() == name && (is_own || name
                            != "default"@),
            decreases self.exports@.len() - i,
        {
            assert(data.exports[i as int] == self.exports@[i as int]@);
            let ghost earlier = texts(names@);
            self::add_name(names, self.exports[i].export_name().as_str(), is_own);
            assert forall|name: Seq<char>| #[trigger]
                texts(names@).contains(name) <==> old_names.contains(name) || exists|k: int|
                    0 <= k < i + 1 && (#[trigger] data.exports[k]).name() == name && (is_own || name
                        != "default"@) by {
                assert(texts(names@).contains(name) <==> earlier.contains(name) || name
                    == data.exports[i as int].name() && (is_own || name != "default"@));
                if earlier.contains(name) && !old_names.contains(name) {
                    let k = choose|k: int|
                        0 <= k < i && (#[trigger] data.exports[k]).name() == name && (is_own || name
                            != "default"@);
                    assert(data.exports[k].name() == name);
                }
            }
            i = i + 1;
        }
        let ghost own = texts(names@);
        let mut j: usize = 0;
        assert forall|to: Seq<char>|
            (exists|k: int|
                0 <= k < 0 && (#[trigger] data.re_exports[k]).name is All
                    && data.re_exports[k].specifier == to) implies keys_of(found@).contains(to) by {}
        while j < self.re_exports.len()
            invariant
                j <= self.re_exports@.len(),
                data == self@,
                sorted(texts(names@)),
                forall|name: Seq<char>| #[trigger]
                    texts(names@).contains(name) <==> own.contains(name) || exists|k: int|
                        0 <= k < j && passes(#[trigger] data.re_exports[k], name) && (is_own || name
                            != "default"@),
                found.wf(),
                old_found.len() <= found@.len(),
                forall|k: int| 0 <= k < old_found.len() ==> #[trigger] found@[k] == old_found[k],
                forall|k: int|
                    old_found.len() <= k < found@.len() ==> passes_all_of(
                        data,
                        (#[trigger] found@[k]).0,
                    ),
                forall|k: int|
                    0 <= k < j && (#[trigger] data.re_exports[k]).name is All ==> keys_of(
                        found@,
                    ).contains(data.re_exports[k].specifier),
            decreases self.re_exports@.len() - j,
        {
            let re_export: &ReExport = &self.re_exports[j];
            let ghost earlier = texts(names@);
            let ghost here = data.re_exports[j as int];
            assert(here == re_export@);
            match &re_export.name {
                ReExportName::Named(name) => {
                    self::add_name(names, name.export_name().as_str(), is_own);
                },
                ReExportName::Namespace(namespace) => {
                    self::add_name(names, namespace.as_str(), is_own);
                },
                ReExportName::All => {
                    if !found.contains_key(re_export.specifier.text.as_str()) {
                        let ghost before = found@;
                        found.insert(re_export.specifier.text.clone(), ());
                        assert(found@ == before.push((here.specifier, ())));
                        assert(passes_all_of(data, here.specifier));
                        assert forall|t: Seq<char>| keys_of(before).contains(t) implies keys_of(
                            found@,
                        ).contains(t) by {
                            let k = keys_of(before).index_of(t);
                            assert(keys_of(found@)[k] == t);
                        }
                        assert(keys_of(found@)[before.len() as int] == here.specifier);
                    } else {
                        proof {
                            lemma_key_place(found@, here.specifier);
                            assert(keys_of(found@)[key_place(found@, here.specifier)]
                                == here.specifier);
                        }
                    }
                },
            }
            assert forall|name: Seq<char>| #[trigger]
                texts(names@).contains(name) <==> own.contains(name) || exists|k: int|
                    0 <= k < j + 1 && passes(#[trigger] data.re_exports[k], name) && (is_own || name
                        != "default"@) by {
                assert(texts(names@).contains(name) <==> earlier.contains(name) || passes(
                    here,
                    name,
                ) && (is_own || name != "default"@));
                if earlier.contains(name) && !own.contains(name) {
                    let k = choose|k: int|
                        0 <= k < j && passes(#[trigger] data.re_exports[k], name) && (is_own || name
                            != "default"@);
                    assert(passes(data.re_exports[k], name));
                }
            }
            j = j + 1;
        }
    }
}

proof fn lemma_insert_exists(names: Seq<Seq<char>>, x: Seq<char>) -> (r: Seq<Seq<char>>)
    requires
        sorted(names),
        !names.contains(x),
    ensures
        sorted(r),
        forall|t: Seq<char>| #[trigger] r.contains(t) <==> names.contains(t) || t == x,
    decreases names.len(),
{
    if names.len() == 0 {
        let r = seq![x];
        assert(r[0] == x);
        r
    } else {
        let last = names.last();
        let init = names.drop_last();
        lemma_text_order(last, x);
        assert(names[names.len() - 1] == last);
        assert(names.contains(last));
        if text_less(last, x) {
            let r = names.push(x);
            assert forall|i: int, j: int| 0 <= i < j < r.len() implies text_less(
                #[trigger] r[i],
                #[trigger] r[j],
            ) by {
                if j == r.len() - 1 {
                    if i < names.len() - 1 {
                        assert(text_less(names[i], names[names.len() - 1]));
                        lemma_text_less_transitive(names[i], last, x);
                    }
                } else {
                    assert(text_less(names[i], names[j]));
                }
            }
            assert forall|t: Seq<char>| #[trigger] r.contains(t) <==> names.contains(t) || t
                == x by {
                if names.contains(t) {
                    assert(r[names.index_of(t)] == t);
                }
                if t == x {
                    assert(r[names.len() as int] == t);
                }
                if r.contains(t) && t != x {
                    assert(names[r.index_of(t)] == t);
                }
            }
            r
        } else {
            if init.contains(x) {
                assert(names[init.index_of(x)] == x);
            }
            let shorter = lemma_insert_exists(init, x);
            let r = shorter.push(last);
            assert forall|i: int, j: int| 0 <= i < j < r.len() implies text_less(
                #[trigger] r[i],
                #[trigger] r[j],
            ) by {
                if j == r.len() - 1 {
                    assert(shorter.contains(shorter[i]));
                    if shorter[i] != x {
                        let k = init.index_of(shorter[i]);
                        assert(init.contains(shorter[i]));
                        assert(names[k] == shorter[i]);
                        assert(text_less(names[k], names[names.len() - 1]));
                    }
                } else {
                    assert(text_less(shorter[i], shorter[j]));
                }
            }
            assert forall|t: Seq<char>| #[trigger] r.contains(t) <==> names.contains(t) || t
                == x by {
                if names.contains(t) {
                    let k = names.index_of(t);
                    if k < init.len() {
                        assert(init[k] == t);
                        assert(init.contains(t));
                        assert(shorter.contains(t));
                        assert(r[shorter.index_of(t)] == t);
                    } else {
                        assert(r[shorter.len() as int] == t);
                    }
                }
                if t == x {
                    assert(shorter.contains(t));
                    assert(r[shorter.index_of(t)] == t);
                }
                if r.contains(t) && t != x {
                    let k = r.index_of(t);
                    if k < shorter.len() {
                        assert(shorter[k] == t);
                        assert(shorter.contains(t));
                        assert(init.contains(t));
                        assert(names[init.index_of(t)] == t);
                    }
                }
            }
            r
        }
    }
}

proof fn lemma_sorted_exists(all: Set<Seq<char>>) -> (r: Seq<Seq<char>>)
    requires
        all.finite(),
    ensures
        sorted(r),
        forall|t: Seq<char>| #[trigger] r.contains(t) <==> all.contains(t),
    decreases all.len(),
{
    if all.len() == 0 {
        assert(all =~= Set::empty());
        Seq::empty()
    } else {
        let x = all.choose();
        let shorter = lemma_sorted_exists(all.remove(x));
        assert(!shorter.contains(x));
        let r = lemma_insert_exists(shorter, x);
        assert forall|t: Seq<char>| #[trigger] r.contains(t) <==> all.contains(t) by {
            assert(shorter.contains(t) <==> all.remove(x).contains(t));
        }
        r
    }
}

/// The names that a module itself gives.
spec fn own_names(data: Data) -> Set<Seq<char>> {
    data.exports.map_values(|e: Export| e.name()).to_set().union(
        data.re_exports.map_values(|e: PassedOn| passed_name(e)).to_set(),
    )
}

spec fn passed_name(e: PassedOn) -> Seq<char> {
    match e.name {
        Passed::Named(export) => export.name(),
        Passed::Namespace(name) => name,
        Passed::All => Seq::empty(),
    }
}

spec fn names_upto(s: Seq<(Seq<char>, Data)>, n: nat) -> Set<Seq<char>>
    decreases n,
{
    if n == 0 {
        Set::empty()
    } else {
        names_upto(s, (n - 1) as nat).union(own_names(s[n - 1].1))
    }
}

proof fn lemma_names_upto(s: Seq<(Seq<char>, Data)>, n: nat)
    requires
        n <= s.len(),
    ensures
        names_upto(s, n).finite(),
        forall|i: int, name: Seq<char>|
            0 <= i < n && #[trigger] declares(s[i].1, name) ==> names_upto(s, n).contains(name),
    decreases n,
{
    if n > 0 {
        lemma_names_upto(s, (n - 1) as nat);
        let data = s[n - 1].1;
        let a = data.exports.map_values(|e: Export| e.name());
        let b = data.re_exports.map_values(|e: PassedOn| passed_name(e));
        vstd::seq_lib::seq_to_set_is_finite(a);
        vstd::seq_lib::seq_to_set_is_finite(b);
        assert forall|i: int, name: Seq<char>|
            0 <= i < n && #[trigger] declares(s[i].1, name) implies names_upto(s, n).contains(
            name,
        ) by {
            if i == n - 1 {
                if exists|j: int|
                    0 <= j < data.exports.len() && (#[trigger] data.exports[j]).name() == name {
                    let j = choose|j: int|
                        0 <= j < data.exports.len() && (#[trigger] data.exports[j]).name() == name;
                    assert(a[j] == name);
                    assert(a.contains(name));
                } else {
                    let j = choose|j: int|
                        0 <= j < data.re_exports.len() && passes(
                            #[trigger] data.re_exports[j],
                            name,
                        );
                    assert(b[j] == name);
                    assert(b.contains(name));
                }
            }
        }
    }
}

/// The names that a module exports are the sorted list of just those names.
pub proof fn lemma_export_names(s: Seq<(Seq<char>, Data)>, specifier: Seq<char>)
    ensures
        are_export_names(s, specifier, export_names(s, specifier)),
{
    lemma_names_upto(s, s.len());
    let all = names_upto(s, s.len()).filter(|name: Seq<char>| exports_name(s, specifier, name));
    assert(all.subset_of(names_upto(s, s.len())));
    vstd::set_lib::lemma_set_subset_finite(names_upto(s, s.len()), all);
    let names = lemma_sorted_exists(all);
    assert forall|name: Seq<char>| #[trigger] names.contains(name) <==> exports_name(
        s,
        specifier,
        name,
    ) by {
        if exports_name(s, specifier, name) {
            let to = choose|to: Seq<char>| #[trigger]
                reaches(s, specifier, to) && has_key(s, to) && gives_to(
                    data_of(s, to),
                    name,
                    to == specifier,
                );
            lemma_key_place(s, to);
            assert(declares(s[key_place(s, to)].1, name));
            assert(all.contains(name));
        }
    }
    assert(are_export_names(s, specifier, names));
}

/// A module exports the names that it gives itself and those of the modules whose
/// exports it all exports, but for that of the default export, and no others.
pub proof fn law_export_names(s: Seq<(Seq<char>, Data)>, specifier: Seq<char>, name: Seq<char>)
    requires
        has_key(s, specifier),
    ensures
        exports_name(s, specifier, name) <==> declares(data_of(s, specifier), name) || name
            != "default"@ && exists|to: Seq<char>| #[trigger]
            passes_all_of(data_of(s, specifier), to) && exports_name(s, to, name),
{
    let data = data_of(s, specifier);
    if declares(data, name) {
        let path = seq![specifier];
        assert(leads(s, path, specifier, specifier));
        assert(reaches(s, specifier, specifier));
    }
    if name != "default"@ && exists|to: Seq<char>| #[trigger]
        passes_all_of(data, to) && exports_name(s, to, name) {
        let next = choose|to: Seq<char>| #[trigger]
            passes_all_of(data, to) && exports_name(s, to, name);
        let to = choose|to: Seq<char>| #[trigger]
            reaches(s, next, to) && has_key(s, to) && gives_to(data_of(s, to), name, to == next);
        let path = choose|path: Seq<Seq<char>>| leads(s, path, next, to);
        let longer = seq![specifier] + path;
        assert forall|i: int| #![trigger longer[i]] 0 <= i < longer.len() - 1 implies has_key(
            s,
            longer[i],
        ) && passes_all_of(data_of(s, longer[i]), longer[i + 1]) by {
            if i > 0 {
                assert(longer[i] == path[i - 1]);
                assert(longer[i + 1] == path[i - 1 + 1]);
            } else {
                assert(longer[1] == path[0]);
            }
        }
        assert(leads(s, longer, specifier, to));
        assert(reaches(s, specifier, to));
    }
    if exports_name(s, specifier, name) && !declares(data, name) {
        let to = choose|to: Seq<char>| #[trigger]
            reaches(s, specifier, to) && has_key(s, to) && gives_to(
                data_of(s, to),
                name,
                to == specifier,
            );
        let path = choose|path: Seq<Seq<char>>| leads(s, path, specifier, to);
        assert(path.len() > 1);
        let rest = path.skip(1);
        assert(passes_all_of(data_of(s, path[0]), path[1]));
        assert forall|i: int| #![trigger rest[i]] 0 <= i < rest.len() - 1 implies has_key(
            s,
            rest[i],
        ) && passes_all_of(data_of(s, rest[i]), rest[i + 1]) by {
            assert(rest[i] == path[i + 1]);
            assert(rest[i + 1] == path[i + 1 + 1]);
        }
        assert(leads(s, rest, path[1], to));
        assert(reaches(s, path[1], to));
        assert(exports_name(s, path[1], name));
    }
}

proof fn lemma_mention_path(
    s: Seq<(Seq<char>, Data)>,
    other: Seq<char>,
    path: Seq<Seq<char>>,
)
    ensures
        star_path(s, path) == star_path(mentioned(s, other), path),
{
    let after = mentioned(s, other);
    if !has_key(s, other) {
        assert forall|key: Seq<char>, to: Seq<char>|
            #![trigger passes_all_of(data_of(s, key), to)]
            #![trigger passes_all_of(data_of(after, key), to)]
            (has_key(s, key) && passes_all_of(data_of(s, key), to)) == (has_key(after, key)
                && passes_all_of(data_of(after, key), to)) by {
            lemma_mentioned(s, other, key);
            lemma_key_place(s, key);
            lemma_key_place(after, key);
            if has_key(after, key) && !has_key(s, key) {
                let p = key_place(after, key);
                if p < s.len() {
                    assert(after[p] == s[p]);
                    assert(s[p].0 != key);
                }
                assert(data_of(after, key) == no_data());
            }
        }
    }
}

/// Mentioning a module changes nothing about what any module exports.
pub proof fn law_mention_keeps_exports(
    s: Seq<(Seq<char>, Data)>,
    other: Seq<char>,
    specifier: Seq<char>,
)
    ensures
        export_names(mentioned(s, other), specifier) == export_names(s, specifier),
{
    let after = mentioned(s, other);
    lemma_export_names(s, specifier);
    lemma_export_names(after, specifier);
    if !has_key(s, other) {
        assert forall|name: Seq<char>| exports_name(s, specifier, name) == #[trigger] exports_name(
            after,
            specifier,
            name,
        ) by {
            if exports_name(s, specifier, name) {
                let to = choose|to: Seq<char>| #[trigger]
                    reaches(s, specifier, to) && has_key(s, to) && gives_to(
                        data_of(s, to),
                        name,
                        to == specifier,
                    );
                let path = choose|path: Seq<Seq<char>>| leads(s, path, specifier, to);
                lemma_mention_path(s, other, path);
                assert(leads(after, path, specifier, to));
                assert(reaches(after, specifier, to));
                lemma_mentioned(s, other, to);
            }
            if exports_name(after, specifier, name) {
                let to = choose|to: Seq<char>| #[trigger]
                    reaches(after, specifier, to) && has_key(after, to) && gives_to(
                        data_of(after, to),
                        name,
                        to == specifier,
                    );
                let path = choose|path: Seq<Seq<char>>| leads(after, path, specifier, to);
                lemma_mention_path(s, other, path);
                assert(leads(s, path, specifier, to));
                assert(reaches(s, specifier, to));
                lemma_mentioned(s, other, to);
                if !has_key(s, to) {
                    lemma_key_place(s, to);
                    lemma_key_place(after, to);
                    let p = key_place(after, to);
                    if p < s.len() {
                        assert(after[p] == s[p]);
                        assert(s[p].0 != to);
                    }
                    assert(data_of(after, to) == no_data());
                    assert(false);
                }
            }
        }
        assert forall|t: Seq<char>| #[trigger]
            export_names(after, specifier).contains(t) <==> export_names(s, specifier).contains(
                t,
            ) by {
            assert(exports_name(s, specifier, t) == exports_name(after, specifier, t));
            assert(export_names(s, specifier).contains(t) <==> exports_name(s, specifier, t));
        }
        lemma_sorted_unique(export_names(after, specifier), export_names(s, specifier));
    }
}

}
