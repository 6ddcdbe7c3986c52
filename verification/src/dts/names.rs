//! Names at the top level of a declaration file, where all modules meet.

use vstd::prelude::*;

use super::analyzer::UniqueSymbolId;
use super::root_symbol::{has_definition, is_module_decl, Symbol, SymbolDecl};
use crate::collections::{
    distinct_keys, has_key, key_place, lemma_key_place, lemma_key_place_is, lemma_key_place_same,
    with_entry, PairMap, TextMap,
};
use crate::syntax::Kind;
use crate::text::{decimal, decimal_text, decimal_text_wide, lemma_decimal_injective};

verus! {

/// Which names are taken, and by which symbols.
#[verifier::ext_equal]
pub struct Names {
    pub taken: Set<Seq<char>>,
    /// The last number that was put behind a name that was taken already.
    pub counts: Seq<(Seq<char>, u128)>,
    pub assigned: Seq<((usize, usize), Seq<char>)>,
}

/// A symbol as a key.
pub open spec fn key_of(id: UniqueSymbolId) -> (usize, usize) {
    (id.module_id, id.symbol_id)
}

/// The last number that was put behind a name.
pub open spec fn count_of(counts: Seq<(Seq<char>, u128)>, name: Seq<char>) -> nat {
    if has_key(counts, name) {
        counts[key_place(counts, name)].1 as nat
    } else {
        0
    }
}

/// Whether this is the first number from `from` on that makes a name that is free.
pub open spec fn is_first_free(
    taken: Set<Seq<char>>,
    name: Seq<char>,
    from: nat,
    k: nat,
) -> bool {
    &&& from <= k
    &&& !taken.contains(name + decimal(k))
    &&& forall|j: nat| from <= j < k ==> taken.contains(name + #[trigger] decimal(j))
}

/// The first number from `from` on that makes a name that is free.
pub open spec fn first_free(taken: Set<Seq<char>>, name: Seq<char>, from: nat) -> nat {
    choose|k: nat| is_first_free(taken, name, from, k)
}

/// A name that is free: the name itself, or else with a number behind it.
pub open spec fn free_name(n: Names, name: Seq<char>) -> Seq<char> {
    if n.taken.contains(name) {
        name + decimal(first_free(n.taken, name, count_of(n.counts, name) + 1))
    } else {
        name
    }
}

/// The names after one was made from a name.
pub open spec fn with_free_name(n: Names, name: Seq<char>) -> Names {
    Names {
        taken: n.taken.insert(free_name(n, name)),
        counts: if n.taken.contains(name) {
            with_entry(
                n.counts,
                name,
                first_free(n.taken, name, count_of(n.counts, name) + 1) as u128,
            )
        } else {
            n.counts
        },
        ..n
    }
}

/// The name that a symbol has in its module, or that stands for it.
pub open spec fn own_name(symbol: Symbol, module_id: usize) -> Seq<char> {
    let decl = symbol.decls@[0];
    if is_module_decl(decl) {
        "packModule"@ + decimal(module_id as nat)
    } else {
        match decl.name {
            Some(name) => name@,
            None => if forall|i: int|
                0 <= i < symbol.decls@.len() ==> (#[trigger] symbol.decls@[i]).is_function {
                "noName"@
            } else {
                "NoName"@
            },
        }
    }
}

/// The name of a symbol at the top level.
pub open spec fn top_level_name(n: Names, id: UniqueSymbolId, name: Seq<char>) -> Seq<char> {
    if has_key(n.assigned, key_of(id)) {
        n.assigned[key_place(n.assigned, key_of(id))].1
    } else {
        free_name(n, name)
    }
}

/// The names after a symbol got one.
pub open spec fn with_top_level_name(n: Names, id: UniqueSymbolId, name: Seq<char>) -> Names {
    if has_key(n.assigned, key_of(id)) {
        n
    } else {
        Names {
            assigned: n.assigned.push((key_of(id), free_name(n, name))),
            ..with_free_name(n, name)
        }
    }
}

/// Whether each name belongs to one symbol, and the numbers behind names are all
/// taken.
pub open spec fn names_wf(n: Names) -> bool {
    &&& n.taken.finite()
    &&& distinct_keys(n.assigned)
    &&& forall|i: int|
        0 <= i < n.assigned.len() ==> n.taken.contains((#[trigger] n.assigned[i]).1)
    &&& forall|i: int, j: int|
        0 <= i < j < n.assigned.len() ==> (#[trigger] n.assigned[i]).1 != (
        #[trigger] n.assigned[j]).1
    &&& forall|i: int, k: nat|
        #![trigger n.counts[i], decimal(k)]
        0 <= i < n.counts.len() && 1 <= k <= n.counts[i].1 ==> n.taken.contains(
            n.counts[i].0 + decimal(k),
        )
}

/// As many numbers behind a name as are taken are names that are taken.
proof fn lemma_count_bounded(taken: Set<Seq<char>>, name: Seq<char>, c: nat)
    requires
        taken.finite(),
        forall|k: nat| 1 <= k <= c ==> taken.contains(name + #[trigger] decimal(k)),
    ensures
        c <= taken.len(),
{
    let s = Seq::new(c, |i: int| name + decimal((i + 1) as nat));
    assert(s.no_duplicates()) by {
        assert forall|i: int, j: int| 0 <= i < s.len() && 0 <= j < s.len() && i != j implies s[i]
            != s[j] by {
            if s[i] == s[j] {
                assert((name + decimal((i + 1) as nat)).skip(name.len() as int) =~= decimal(
                    (i + 1) as nat,
                ));
                assert((name + decimal((j + 1) as nat)).skip(name.len() as int) =~= decimal(
                    (j + 1) as nat,
                ));
                lemma_decimal_injective((i + 1) as nat, (j + 1) as nat);
            }
        }
    }
    s.unique_seq_to_set();
    assert forall|t: Seq<char>| s.to_set().contains(t) implies taken.contains(t) by {
        let i = s.index_of(t);
        assert(s[i] == name + decimal((i + 1) as nat));
    }
    vstd::set_lib::lemma_len_subset(s.to_set(), taken);
}

proof fn lemma_first_free(taken: Set<Seq<char>>, name: Seq<char>, from: nat, k: nat)
    requires
        is_first_free(taken, name, from, k),
    ensures
        first_free(taken, name, from) == k,
{
    let other = first_free(taken, name, from);
    assert(is_first_free(taken, name, from, other));
    if other < k {
        assert(taken.contains(name + decimal(other)));
    }
    if k < other {
        assert(taken.contains(name + decimal(k)));
    }
}

/// The names that are taken at the top level, and the symbols that have them.
pub struct TopLevelSymbols {
    names: TextMap<()>,
    name_collision_count: TextMap<u128>,
    symbol_id_to_name: PairMap<String>,
}

impl TopLevelSymbols {
    pub closed spec fn view(&self) -> Names {
        Names {
            taken: Set::new(|name: Seq<char>| has_key(self.names@, name)),
            counts: self.name_collision_count@,
            assigned: Seq::new(
                self.symbol_id_to_name@.len(),
                |i: int| (self.symbol_id_to_name@[i].0, self.symbol_id_to_name@[i].1@),
            ),
        }
    }

    /// Each name belongs to one symbol.
    pub closed spec fn wf(&self) -> bool {
        &&& self.names.wf()
        &&& self.name_collision_count.wf()
        &&& self.symbol_id_to_name.wf()
        &&& names_wf(self@)
    }

    pub proof fn lemma_wf(&self)
        requires
            self.wf(),
        ensures
            names_wf(self@),
    {
    }

    proof fn lemma_taken(&self)
        requires
            self.names.wf(),
        ensures
            self@.taken.finite(),
            self@.taken.len() == self.names@.len(),
    {
        let keys = Seq::new(self.names@.len(), |i: int| self.names@[i].0);
        self.names.lemma_distinct();
        assert(keys.no_duplicates()) by {
            assert forall|i: int, j: int|
                0 <= i < keys.len() && 0 <= j < keys.len() && i != j implies keys[i] != keys[j] by {
                if i < j {
                    assert(self.names@[i].0 != self.names@[j].0);
                } else {
                    assert(self.names@[j].0 != self.names@[i].0);
                }
            }
        }
        keys.unique_seq_to_set();
        assert forall|t: Seq<char>| self@.taken.contains(t) <==> keys.to_set().contains(t) by {
            lemma_key_place(self.names@, t);
            if has_key(self.names@, t) {
                assert(keys[key_place(self.names@, t)] == t);
            }
            if keys.contains(t) {
                let i = keys.index_of(t);
                assert(self.names@[i].0 == t);
                lemma_key_place_is(self.names@, i);
            }
        }
        assert(self@.taken =~= keys.to_set());
    }

    pub fn new() -> (r: TopLevelSymbols)
        ensures
            r.wf(),
            r@ == (Names { taken: Set::empty(), counts: Seq::empty(), assigned: Seq::empty() }),
    {
        let r = TopLevelSymbols {
            names: TextMap::new(),
            name_collision_count: TextMap::new(),
            symbol_id_to_name: PairMap::new(),
        };
        assert(r@.taken =~= Set::empty());
        assert(r@.counts =~= Seq::empty());
        assert(r@.assigned =~= Seq::empty());
        r
    }

    /// A name that is free, which is taken by this.
    fn get_new_unique_name(&mut self, name: &str) -> (r: String)
        requires
            old(self).wf(),
        ensures
            final(self).names.wf(),
            final(self).name_collision_count.wf(),
            final(self).symbol_id_to_name == old(self).symbol_id_to_name,
            names_wf(final(self)@),
            final(self)@ == with_free_name(old(self)@, name@),
            r@ == free_name(old(self)@, name@),
            !old(self)@.taken.contains(r@),
    {
        let ghost before = self@;
        let len: usize = self.names.len();
        proof {
            self.lemma_taken();
            self.name_collision_count.lemma_distinct();
        }
        let r: String = if self.names.contains_key(name) {
            let ghost from = count_of(before.counts, name@) + 1;
            proof {
                lemma_key_place(before.counts, name@);
            }
            let mut count: u128 = match self.name_collision_count.get(name) {
                Some(count) => *count,
                None => 0,
            };
            proof {
                assert forall|k: nat| 1 <= k <= count implies before.taken.contains(
                    name@ + #[trigger] decimal(k),
                ) by {
                    let i = key_place(before.counts, name@);
                    assert(before.counts[i].0 == name@);
                }
                lemma_count_bounded(before.taken, name@, count as nat);
            }
            count = count + 1;
            let mut new_name: String = name.to_owned().concat(
                decimal_text_wide(count).as_str(),
            );
            while self.names.contains_key(new_name.as_str())
                invariant
                    self.names.wf(),
                    self@ == before,
                    before.taken == Set::new(|name: Seq<char>| has_key(self.names@, name)),
                    before.taken.finite(),
                    before.taken.len() == len,
                    from == count_of(before.counts, name@) + 1,
                    from <= count,
                    1 <= count <= before.taken.len() + 1,
                    new_name@ == name@ + decimal(count as nat),
                    forall|k: nat|
                        1 <= k < count ==> before.taken.contains(name@ + #[trigger] decimal(k)),
                decreases before.taken.len() + 1 - count,
            {
                proof {
                    assert forall|k: nat| 1 <= k <= count implies before.taken.contains(
                        name@ + #[trigger] decimal(k),
                    ) by {
                        if k == count {
                            assert(before.taken.contains(new_name@));
                        }
                    }
                    lemma_count_bounded(before.taken, name@, count as nat);
                }
                count = count + 1;
                new_name = name.to_owned().concat(decimal_text_wide(count).as_str());
            }
            proof {
                assert(!before.taken.contains(new_name@));
                assert(is_first_free(before.taken, name@, from, count as nat));
                lemma_first_free(before.taken, name@, from, count as nat);
            }
            self.name_collision_count.insert(name.to_owned(), count);
            new_name
        } else {
            name.to_owned()
        };
        let ghost middle = self.names@;
        self.names.insert(r.clone(), ());
        proof {
            let after = self@;
            lemma_key_place(middle, r@);
            assert forall|t: Seq<char>| after.taken.contains(t) <==> before.taken.insert(
                r@,
            ).contains(t) by {
                lemma_key_place(middle, t);
                lemma_key_place(self.names@, t);
                if has_key(middle, t) {
                    let i = key_place(middle, t);
                    assert(self.names@[i].0 == t);
                }
                if t == r@ {
                    assert(self.names@[middle.len() as int].0 == t);
                }
                if has_key(self.names@, t) && t != r@ {
                    let i = key_place(self.names@, t);
                    assert(middle[i].0 == t);
                }
            }
            assert(after.taken =~= before.taken.insert(r@));
            assert(after.assigned =~= before.assigned);
            assert(after =~= with_free_name(before, name@));
            assert forall|i: int, k: nat|
                #![trigger after.counts[i], decimal(k)]
                0 <= i < after.counts.len() && 1 <= k
                    <= after.counts[i].1 implies after.taken.contains(
                after.counts[i].0 + decimal(k),
            ) by {
                lemma_key_place(before.counts, name@);
                if before.taken.contains(name@) && after.counts[i].0 == name@ {
                    let from = count_of(before.counts, name@) + 1;
                    let c = first_free(before.taken, name@, from);
                    lemma_entry_at(before.counts, name@, c as u128, i);
                    if k == c {
                        assert(r@ == name@ + decimal(k));
                    } else if k < from {
                        let j = key_place(before.counts, name@);
                        assert(before.counts[j].0 == name@);
                        assert(before.taken.contains(name@ + decimal(k)));
                    } else {
                        assert(before.taken.contains(name@ + decimal(k)));
                    }
                } else {
                    assert(before.counts[i] == after.counts[i]);
                    assert(before.taken.contains(before.counts[i].0 + decimal(k)));
                }
            }
        }
        r
    }

    /// The name of a symbol that has one.
    pub fn assigned_name(&self, id: UniqueSymbolId) -> (r: &String)
        requires
            self.wf(),
            has_key(self@.assigned, key_of(id)),
        ensures
            r@ == self@.assigned[key_place(self@.assigned, key_of(id))].1,
    {
        proof {
            lemma_key_place_same(self.symbol_id_to_name@, self@.assigned, key_of(id));
            lemma_key_place(self@.assigned, key_of(id));
        }
        self.symbol_id_to_name.get((id.module_id, id.symbol_id)).unwrap()
    }

    /// The name of a symbol at the top level. A symbol that has none gets one that
    /// is free.
    pub fn ensure_top_level_name(&mut self, id: UniqueSymbolId, symbol: &Symbol) -> (r: String)
        requires
            old(self).wf(),
            has_definition(*symbol),
        ensures
            final(self).wf(),
            final(self)@ == with_top_level_name(
                old(self)@,
                id,
                own_name(*symbol, id.module_id),
            ),
            r@ == top_level_name(old(self)@, id, own_name(*symbol, id.module_id)),
            has_key(final(self)@.assigned, key_of(id)),
            final(self)@.assigned[key_place(final(self)@.assigned, key_of(id))].1 == r@,
    {
        let key: (usize, usize) = (id.module_id, id.symbol_id);
        let ghost before = self@;
        let ghost middle = self.symbol_id_to_name@;
        proof {
            lemma_key_place_same(middle, before.assigned, key);
            lemma_key_place(middle, key);
            lemma_key_place(before.assigned, key);
        }
        match self.symbol_id_to_name.get(key) {
            Some(name) => {
                return name.clone();
            },
            None => {},
        }
        let name: String = name_of_symbol(symbol, id.module_id);
        let name: String = self.get_new_unique_name(name.as_str());
        let ghost named = self@;
        self.symbol_id_to_name.insert(key, name.clone());
        proof {
            let after = self@;
            assert(after.assigned =~= before.assigned.push((key, name@)));
            assert(after =~= with_top_level_name(
                before,
                id,
                own_name(*symbol, id.module_id),
            ));
            self.symbol_id_to_name.lemma_distinct();
            assert forall|i: int, j: int| 0 <= i < j < after.assigned.len() implies (
            #[trigger] after.assigned[i]).1 != (#[trigger] after.assigned[j]).1 by {
                assert(after.assigned[i] == before.assigned[i]);
                assert(before.taken.contains(before.assigned[i].1));
                if j < before.assigned.len() {
                    assert(after.assigned[j] == before.assigned[j]);
                }
            }
            assert forall|i: int, j: int| 0 <= i < j < after.assigned.len() implies (
            #[trigger] after.assigned[i]).0 != (#[trigger] after.assigned[j]).0 by {
                assert(self.symbol_id_to_name@[i].0 != self.symbol_id_to_name@[j].0);
            }
            assert forall|i: int| 0 <= i < after.assigned.len() implies after.taken.contains(
                (#[trigger] after.assigned[i]).1,
            ) by {
                if i < before.assigned.len() {
                    assert(after.assigned[i] == before.assigned[i]);
                    assert(before.taken.contains(before.assigned[i].1));
                }
            }
            assert forall|i: int, k: nat|
                #![trigger after.counts[i], decimal(k)]
                0 <= i < after.counts.len() && 1 <= k
                    <= after.counts[i].1 implies after.taken.contains(
                after.counts[i].0 + decimal(k),
            ) by {
                assert(named.taken.contains(named.counts[i].0 + decimal(k)));
            }
            assert(after.assigned[before.assigned.len() as int].0 == key);
            lemma_key_place_is(after.assigned, before.assigned.len() as int);
        }
        name
    }
}

proof fn lemma_entry_at<K, V>(s: Seq<(K, V)>, key: K, value: V, i: int)
    requires
        0 <= i < with_entry(s, key, value).len(),
        with_entry(s, key, value)[i].0 == key,
        distinct_keys(s),
    ensures
        with_entry(s, key, value)[i].1 == value,
{
    lemma_key_place(s, key);
    if i < s.len() && i != key_place(s, key) {
        lemma_key_place_is(s, i);
    }
}

/// The name that a symbol has in its module, or that stands for it.
fn name_of_symbol(symbol: &Symbol, module_id: usize) -> (r: String)
    requires
        has_definition(*symbol),
    ensures
        r@ == own_name(*symbol, module_id),
{
    let decl: &SymbolDecl = &symbol.decls[0];
    let is_module: bool = match &decl.node {
        Some(node) => node.tree.kind == Kind::Module,
        None => false,
    };
    if is_module {
        return "packModule".to_owned().concat(decimal_text(module_id).as_str());
    }
    match &decl.name {
        Some(name) => name.clone(),
        None => {
            let mut i: usize = 0;
            while i < symbol.decls.len()
                invariant
                    i <= symbol.decls@.len(),
                    symbol.decls@.len() > 0,
                    !is_module_decl(symbol.decls@[0]),
                    symbol.decls@[0].name is None,
                    forall|j: int| 0 <= j < i ==> (#[trigger] symbol.decls@[j]).is_function,
                decreases symbol.decls@.len() - i,
            {
                if !symbol.decls[i].is_function {
                    assert(!symbol.decls@[i as int].is_function);
                    return "NoName".to_owned();
                }
                i = i + 1;
            }
            "noName".to_owned()
        },
    }
}

/// Different symbols have different names.
pub proof fn law_names_are_unique(n: Names, a: UniqueSymbolId, b: UniqueSymbolId)
    requires
        names_wf(n),
        has_key(n.assigned, key_of(a)),
        has_key(n.assigned, key_of(b)),
        a != b,
    ensures
        n.assigned[key_place(n.assigned, key_of(a))].1 != n.assigned[key_place(
            n.assigned,
            key_of(b),
        )].1,
{
    lemma_key_place(n.assigned, key_of(a));
    lemma_key_place(n.assigned, key_of(b));
    let i = key_place(n.assigned, key_of(a));
    let j = key_place(n.assigned, key_of(b));
    if i < j {
        assert(n.assigned[i].1 != n.assigned[j].1);
    } else if j < i {
        assert(n.assigned[j].1 != n.assigned[i].1);
    }
}

}
