//! Stable identifiers for free-text names.
//!
//! The identifier of a name is its position in the table plus one, so the
//! table is at once the map from identifiers to names and, by search, the
//! map from names to identifiers: the two cannot disagree.

use vstd::prelude::*;

verus! {

pub open spec fn distinct(names: Seq<Seq<char>>) -> bool {
    forall|i: int, j: int| 0 <= i < j < names.len() ==> names[i] != names[j]
}

/// The table after interning `name`.
pub open spec fn interned_names(names: Seq<Seq<char>>, name: Seq<char>) -> Seq<Seq<char>> {
    if names.contains(name) {
        names
    } else {
        names.push(name)
    }
}

/// The identifier that interning `name` gives.
pub open spec fn interned_id(names: Seq<Seq<char>>, name: Seq<char>) -> nat {
    if names.contains(name) {
        (choose|i: int| 0 <= i < names.len() && names[i] == name) as nat + 1
    } else {
        names.len() + 1
    }
}

/// Interning a name twice gives the same identifier both times, and the
/// second time leaves the table as it was.
pub proof fn lemma_intern_idempotent(names: Seq<Seq<char>>, name: Seq<char>)
    requires
        distinct(names),
    ensures
        interned_names(interned_names(names, name), name) == interned_names(names, name),
        interned_id(interned_names(names, name), name) == interned_id(names, name),
        distinct(interned_names(names, name)),
{
    let after = interned_names(names, name);
    assert(after.contains(name)) by {
        if !names.contains(name) {
            assert(after[names.len() as int] == name);
        }
    }
    let i = choose|i: int| 0 <= i < after.len() && after[i] == name;
    if names.contains(name) {
    } else {
        if i < names.len() {
            assert(names[i] == name);
        }
        assert forall|a: int, b: int| 0 <= a < b < after.len() implies after[a] != after[b] by {
            if b == names.len() {
                assert(names[a] == after[a]);
            }
        }
    }
}

/// Each name of the table, interned again, gives back its own identifier.
pub proof fn lemma_intern_of_name(names: Seq<Seq<char>>, id: int)
    requires
        distinct(names),
        1 <= id <= names.len(),
    ensures
        interned_id(names, names[id - 1]) == id,
        interned_names(names, names[id - 1]) == names,
{
    let name = names[id - 1];
    assert(names.contains(name));
    let i = choose|i: int| 0 <= i < names.len() && names[i] == name;
    if i < id - 1 {
    } else if i > id - 1 {
    }
}

/// Interning keeps the names already in the table where they are, and the
/// identifier it gives is that of `name` in the table it leaves.
pub proof fn lemma_interned_at(names: Seq<Seq<char>>, name: Seq<char>)
    requires
        distinct(names),
    ensures
        1 <= interned_id(names, name) <= interned_names(names, name).len(),
        interned_names(names, name)[interned_id(names, name) - 1] == name,
        interned_names(names, name).len() <= names.len() + 1,
        forall|i: int| 0 <= i < names.len() ==> #[trigger] interned_names(names, name)[i] == names[i],
{
    if names.contains(name) {
        let i = choose|i: int| 0 <= i < names.len() && names[i] == name;
    }
}

/// A table of distinct names.
pub struct Interner {
    names: Vec<String>,
}

impl Interner {
    pub closed spec fn name_seq(&self) -> Seq<Seq<char>> {
        self.names@.map_values(|s: String| s@)
    }

    pub open spec fn wf(&self) -> bool {
        distinct(self.name_seq())
    }

    pub fn new() -> (r: Self)
        ensures
            r.wf(),
            r.name_seq() == Seq::<Seq<char>>::empty(),
    {
        let r = Interner { names: Vec::new() };
        assert(r.name_seq() =~= Seq::<Seq<char>>::empty());
        r
    }

    /// The identifier of `name`, allocating the next one when it is new.
    pub fn intern(&mut self, name: String) -> (id: usize)
        requires
            old(self).wf(),
            old(self).name_seq().len() < usize::MAX,
        ensures
            final(self).wf(),
            final(self).name_seq() == interned_names(old(self).name_seq(), name@),
            id == interned_id(old(self).name_seq(), name@),
    {
        let n = self.names.len();
        let mut i: usize = 0;
        while i < n
            invariant
                n == self.names@.len(),
                i <= n,
                self.wf(),
                self.name_seq() == old(self).name_seq(),
                forall|j: int| 0 <= j < i ==> self.name_seq()[j] != name@,
            decreases n - i,
        {
            if self.names[i] == name {
                proof {
                    assert(self.name_seq()[i as int] == name@);
                    assert(self.name_seq().contains(name@));
                    let c = choose|c: int| 0 <= c < self.name_seq().len() && self.name_seq()[c] == name@;
                    if c < i {
                    } else if c > i {
                        assert(self.name_seq()[c] != self.name_seq()[i as int]);
                    }
                }
                return i + 1;
            }
            i = i + 1;
        }
        let ghost before = self.name_seq();
        assert(!before.contains(name@));
        self.names.push(name);
        assert(self.name_seq() =~= before.push(name@));
        proof {
            lemma_intern_idempotent(before, name@);
        }
        n + 1
    }

    pub fn len(&self) -> (r: usize)
        ensures
            r == self.name_seq().len(),
    {
        self.names.len()
    }

    /// The name under `id`.
    pub fn name_at(&self, id: usize) -> (r: &str)
        requires
            1 <= id <= self.name_seq().len(),
        ensures
            r@ == self.name_seq()[id - 1],
    {
        self.names[id - 1].as_str()
    }
}

} // verus!
