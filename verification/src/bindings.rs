//! The bindings of variables to terms.

use crate::terms::{Symbol, Term, ValueView};
use vstd::prelude::*;

verus! {

/// A set of bindings: each name is bound to at most one term.
#[derive(Debug)]
pub struct Bindings {
    entries: Vec<(Symbol, Term)>,
}

/// Whether some entry binds `name`.
spec fn binds(entries: Seq<(Symbol, Term)>, name: Seq<char>) -> bool {
    exists|i: int| 0 <= i < entries.len() && (#[trigger] entries[i]).0@ == name
}

/// The place of an entry that binds `name`.
spec fn place_of(entries: Seq<(Symbol, Term)>, name: Seq<char>) -> int {
    choose|i: int| 0 <= i < entries.len() && (#[trigger] entries[i]).0@ == name
}

/// No two entries bind the same name.
spec fn distinct(entries: Seq<(Symbol, Term)>) -> bool {
    forall|i: int, j: int|
        0 <= i < j < entries.len() ==> (#[trigger] entries[i]).0@ != (#[trigger] entries[j]).0@
}

/// The mapping that a list of entries stands for.
spec fn mapping(entries: Seq<(Symbol, Term)>) -> Map<Seq<char>, ValueView> {
    Map::new(|name: Seq<char>| binds(entries, name), |name: Seq<char>| entries[place_of(entries, name)].1@)
}

/// Each entry is in the mapping, under its name.
proof fn lemma_entry(entries: Seq<(Symbol, Term)>, i: int)
    requires
        distinct(entries),
        0 <= i < entries.len(),
    ensures
        mapping(entries).contains_key(entries[i].0@),
        mapping(entries)[entries[i].0@] == entries[i].1@,
{
    let name = entries[i].0@;
    assert(binds(entries, name));
    let p = place_of(entries, name);
    assert(0 <= p < entries.len() && entries[p].0@ == name);
    assert(p == i);
}

/// A new entry under a name that is not bound adds that binding.
proof fn lemma_push(entries: Seq<(Symbol, Term)>, entry: (Symbol, Term))
    requires
        distinct(entries),
        !binds(entries, entry.0@),
    ensures
        distinct(entries.push(entry)),
        mapping(entries.push(entry)) == mapping(entries).insert(entry.0@, entry.1@),
{
    let after = entries.push(entry);
    assert(distinct(after)) by {
        assert forall|i: int, j: int| 0 <= i < j < after.len() implies (#[trigger] after[i]).0@ != (
        #[trigger] after[j]).0@ by {
            if j == entries.len() {
                assert(after[i] == entries[i]);
            } else {
                assert(after[i] == entries[i]);
                assert(after[j] == entries[j]);
            }
        }
    }
    let want = mapping(entries).insert(entry.0@, entry.1@);
    assert forall|name: Seq<char>| mapping(after).contains_key(name) <==> want.contains_key(
        name,
    ) by {
        if binds(after, name) {
            let p = place_of(after, name);
            if p < entries.len() {
                assert(entries[p] == after[p]);
            }
        }
        if binds(entries, name) {
            let p = place_of(entries, name);
            assert(after[p] == entries[p]);
        }
        if name == entry.0@ {
            assert(after[entries.len() as int] == entry);
        }
    }
    assert forall|name: Seq<char>| mapping(after).contains_key(name) implies mapping(after)[name]
        == want[name] by {
        let p = place_of(after, name);
        lemma_entry(after, p);
        if p < entries.len() {
            assert(entries[p] == after[p]);
            lemma_entry(entries, p);
        } else {
            assert(after[p] == entry);
        }
    }
    assert(mapping(after) =~= want);
}

/// Taking an entry out removes the binding of its name.
proof fn lemma_remove(entries: Seq<(Symbol, Term)>, i: int)
    requires
        distinct(entries),
        0 <= i < entries.len(),
    ensures
        distinct(entries.remove(i)),
        !binds(entries.remove(i), entries[i].0@),
        mapping(entries.remove(i)) == mapping(entries).remove(entries[i].0@),
{
    let after = entries.remove(i);
    assert forall|k: int| 0 <= k < after.len() implies #[trigger] after[k] == entries[if k < i {
        k
    } else {
        k + 1
    }] by {}
    assert(distinct(after)) by {
        assert forall|a: int, b: int| 0 <= a < b < after.len() implies (#[trigger] after[a]).0@ != (
        #[trigger] after[b]).0@ by {
            let first = if a < i {
                a
            } else {
                a + 1
            };
            let second = if b < i {
                b
            } else {
                b + 1
            };
            assert(after[a] == entries[first]);
            assert(after[b] == entries[second]);
        }
    }
    assert(!binds(after, entries[i].0@)) by {
        if binds(after, entries[i].0@) {
            let p = place_of(after, entries[i].0@);
            let shifted = if p < i {
                p
            } else {
                p + 1
            };
            assert(after[p] == entries[shifted]);
            assert(false);
        }
    }
    let want = mapping(entries).remove(entries[i].0@);
    assert forall|name: Seq<char>| mapping(after).contains_key(name) <==> want.contains_key(
        name,
    ) by {
        if binds(after, name) {
            let p = place_of(after, name);
            let shifted = if p < i {
                p
            } else {
                p + 1
            };
            assert(after[p] == entries[shifted]);
        }
        if binds(entries, name) && name != entries[i].0@ {
            let p = place_of(entries, name);
            let q = if p < i {
                p
            } else {
                p - 1
            };
            assert(after[q] == entries[p]);
        }
    }
    assert forall|name: Seq<char>| mapping(after).contains_key(name) implies mapping(after)[name]
        == want[name] by {
        let p = place_of(after, name);
        let shifted = if p < i {
            p
        } else {
            p + 1
        };
        assert(after[p] == entries[shifted]);
        lemma_entry(after, p);
        lemma_entry(entries, shifted);
    }
    assert(mapping(after) =~= want);
}

impl View for Bindings {
    type V = Map<Seq<char>, ValueView>;

    closed spec fn view(&self) -> Map<Seq<char>, ValueView> {
        mapping(self.entries@)
    }
}

impl Bindings {
    #[verifier::type_invariant]
    spec fn well_formed(&self) -> bool {
        distinct(self.entries@)
    }

    /// No bindings.
    pub fn new() -> (r: Bindings)
        ensures
            r@ == Map::<Seq<char>, ValueView>::empty(),
    {
        let r = Bindings { entries: Vec::new() };
        assert(r@ =~= Map::<Seq<char>, ValueView>::empty());
        r
    }

    /// The place of the entry that binds `name`, if there is one.
    fn find(&self, name: &Symbol) -> (r: Option<usize>)
        ensures
            r matches Some(i) ==> i < self.entries@.len() && self.entries@[i as int].0@ == name@,
            r is None ==> !binds(self.entries@, name@),
    {
        let mut i: usize = 0;
        while i < self.entries.len()
            invariant
                i <= self.entries@.len(),
                forall|j: int| 0 <= j < i ==> (#[trigger] self.entries@[j]).0@ != name@,
            decreases self.entries.len() - i,
        {
            if self.entries[i].0 == *name {
                return Some(i);
            }
            i += 1;
        }
        None
    }

    /// The term that `name` is bound to, if it is bound.
    pub fn get(&self, name: &Symbol) -> (r: Option<&Term>)
        ensures
            r is Some <==> self@.contains_key(name@),
            r matches Some(term) ==> term@ == self@[name@],
    {
        proof {
            use_type_invariant(self);
        }
        match self.find(name) {
            Some(i) => {
                proof {
                    lemma_entry(self.entries@, i as int);
                }
                Some(&self.entries[i].1)
            },
            None => None,
        }
    }

    /// Whether `name` is bound.
    pub fn contains_key(&self, name: &Symbol) -> (r: bool)
        ensures
            r == self@.contains_key(name@),
    {
        self.get(name).is_some()
    }

    /// Binds `name` to `term`, and returns the term that it was bound to
    /// before, if it was bound.
    pub fn insert(&mut self, name: Symbol, term: Term) -> (r: Option<Term>)
        ensures
            final(self)@ == old(self)@.insert(name@, term@),
            r is Some <==> old(self)@.contains_key(name@),
            r matches Some(before) ==> before@ == old(self)@[name@],
    {
        proof {
            use_type_invariant(&*self);
        }
        let before = self.remove(&name);
        proof {
            use_type_invariant(&*self);
            assert(!self@.contains_key(name@));
            assert(!binds(self.entries@, name@));
            lemma_push(self.entries@, (name, term));
            assert(old(self)@.remove(name@).insert(name@, term@) =~= old(self)@.insert(
                name@,
                term@,
            ));
        }
        let mut entries: Vec<(Symbol, Term)> = Vec::new();
        std::mem::swap(&mut self.entries, &mut entries);
        entries.push((name, term));
        std::mem::swap(&mut self.entries, &mut entries);
        before
    }

    /// Removes the binding of `name`, and returns the term that it was bound
    /// to, if it was bound.
    pub fn remove(&mut self, name: &Symbol) -> (r: Option<Term>)
        ensures
            final(self)@ == old(self)@.remove(name@),
            r is Some <==> old(self)@.contains_key(name@),
            r matches Some(before) ==> before@ == old(self)@[name@],
    {
        proof {
            use_type_invariant(&*self);
        }
        match self.find(name) {
            Some(i) => {
                proof {
                    lemma_entry(self.entries@, i as int);
                    lemma_remove(self.entries@, i as int);
                }
                let mut entries: Vec<(Symbol, Term)> = Vec::new();
                std::mem::swap(&mut self.entries, &mut entries);
                let entry = entries.remove(i);
                std::mem::swap(&mut self.entries, &mut entries);
                Some(entry.1)
            },
            None => {
                assert(old(self)@.remove(name@) =~= old(self)@);
                None
            },
        }
    }

    /// The names that are bound, each once.
    pub fn names(&self) -> (r: Vec<Symbol>)
        ensures
            forall|i: int| 0 <= i < r@.len() ==> self@.contains_key(#[trigger] r@[i]@),
            forall|name: Seq<char>|
                self@.contains_key(name) ==> exists|i: int|
                    0 <= i < r@.len() && #[trigger] r@[i]@ == name,
            forall|i: int, j: int| 0 <= i < j < r@.len() ==> #[trigger] r@[i]@ != #[trigger] r@[j]@,
    {
        proof {
            use_type_invariant(self);
        }
        let mut r: Vec<Symbol> = Vec::new();
        let mut i: usize = 0;
        while i < self.entries.len()
            invariant
                i <= self.entries@.len(),
                r@.len() == i,
                forall|j: int| 0 <= j < i ==> (#[trigger] r@[j])@ == self.entries@[j].0@,
            decreases self.entries.len() - i,
        {
            r.push(self.entries[i].0.clone());
            i += 1;
        }
        proof {
            assert forall|k: int| 0 <= k < r@.len() implies self@.contains_key(
                #[trigger] r@[k]@,
            ) by {
                lemma_entry(self.entries@, k);
            }
            assert forall|name: Seq<char>| self@.contains_key(name) implies exists|k: int|
                0 <= k < r@.len() && #[trigger] r@[k]@ == name by {
                let p = place_of(self.entries@, name);
                assert(r@[p]@ == name);
            }
            assert forall|a: int, b: int| 0 <= a < b < r@.len() implies #[trigger] r@[a]@
                != #[trigger] r@[b]@ by {
                assert(self.entries@[a].0@ != self.entries@[b].0@);
            }
        }
        r
    }
}

impl Clone for Bindings {
    fn clone(&self) -> (r: Self)
        ensures
            r@ == self@,
    {
        proof {
            use_type_invariant(self);
        }
        let mut entries: Vec<(Symbol, Term)> = Vec::new();
        let mut i: usize = 0;
        while i < self.entries.len()
            invariant
                i <= self.entries@.len(),
                entries@.len() == i,
                forall|j: int|
                    0 <= j < i ==> (#[trigger] entries@[j]).0@ == self.entries@[j].0@
                        && entries@[j].1@ == self.entries@[j].1@,
            decreases self.entries.len() - i,
        {
            entries.push((self.entries[i].0.clone(), self.entries[i].1.clone()));
            i += 1;
        }
        proof {
            lemma_same_mapping(entries@, self.entries@);
        }
        Bindings { entries }
    }
}

/// Lists whose entries agree place by place stand for the same mapping.
proof fn lemma_same_mapping(a: Seq<(Symbol, Term)>, b: Seq<(Symbol, Term)>)
    requires
        distinct(b),
        a.len() == b.len(),
        forall|j: int|
            0 <= j < a.len() ==> (#[trigger] a[j]).0@ == b[j].0@ && a[j].1@ == b[j].1@,
    ensures
        distinct(a),
        mapping(a) == mapping(b),
{
    assert(distinct(a)) by {
        assert forall|i: int, j: int| 0 <= i < j < a.len() implies (#[trigger] a[i]).0@ != (
        #[trigger] a[j]).0@ by {
            assert(b[i].0@ != b[j].0@);
        }
    }
    assert forall|name: Seq<char>| mapping(a).contains_key(name) <==> mapping(b).contains_key(
        name,
    ) by {
        if binds(a, name) {
            let p = place_of(a, name);
            assert(b[p].0@ == name);
        }
        if binds(b, name) {
            let p = place_of(b, name);
            assert(a[p].0@ == name);
        }
    }
    assert forall|name: Seq<char>| mapping(a).contains_key(name) implies mapping(a)[name]
        == mapping(b)[name] by {
        let p = place_of(a, name);
        assert(b[p].0@ == name);
        lemma_entry(a, p);
        lemma_entry(b, p);
    }
    assert(mapping(a) =~= mapping(b));
}

} // verus!
