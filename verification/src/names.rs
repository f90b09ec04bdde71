//! A table from names to identifiers.

use vstd::prelude::*;

verus! {
/// An ordered list of names, each with its identifier; no name stands twice.
#[derive(Debug)]
pub struct NameTable {
    entries: Vec<(String, u64)>,
}

impl View for NameTable {
    type V = Map<Seq<char>, u64>;

    closed spec fn view(&self) -> Map<Seq<char>, u64> {
        Map::new(
            |name: Seq<char>| self.index_of(name) is Some,
            |name: Seq<char>| self.order()[self.index_of(name).unwrap()].1,
        )
    }
}

impl NameTable {
    /// The entries in the order in which they came.
    pub closed spec fn order(&self) -> Seq<(Seq<char>, u64)> {
        Seq::new(self.entries@.len(), |i: int| (self.entries@[i].0@, self.entries@[i].1))
    }

    /// The place of `name` among the entries.
    pub closed spec fn index_of(&self, name: Seq<char>) -> Option<int> {
        if exists|i: int| 0 <= i < self.order().len() && #[trigger] self.order()[i].0 == name {
            Some(choose|i: int| 0 <= i < self.order().len() && #[trigger] self.order()[i].0 == name)
        } else {
            None
        }
    }

    /// No name stands twice.
    pub closed spec fn wf(&self) -> bool {
        forall|i: int, j: int|
            0 <= i < j < self.order().len() ==> #[trigger] self.order()[i].0
                != #[trigger] self.order()[j].0
    }

    /// A table without names.
    pub fn new() -> (t: Self)
        ensures
            t.wf(),
            t@ == Map::<Seq<char>, u64>::empty(),
            t.order() == Seq::<(Seq<char>, u64)>::empty(),
    {
        let t = NameTable { entries: Vec::new() };
        t
    }

    /// The number of names.
    pub fn len(&self) -> (n: usize)
        ensures
            n == self.order().len(),
    {
        self.entries.len()
    }

    /// The identifier of `name`, if the table holds it.
    pub fn get(&self, name: &String) -> (r: Option<u64>)
        requires
            self.wf(),
        ensures
            r is Some <==> self@.contains_key(name@),
            r is Some ==> r.unwrap() == self@[name@],
    {
        let mut i: usize = 0;
        while i < self.entries.len()
            invariant
                i <= self.entries.len(),
                self.wf(),
                forall|j: int| 0 <= j < i ==> #[trigger] self.order()[j].0 != name@,
            decreases self.entries.len() - i,
        {
            if self.entries[i].0 == *name {
                proof {
                    assert(self.order()[i as int].0 == name@);
                }
                return Some(self.entries[i].1);
            }
            i += 1;
        }
        None
    }

    /// Adds `name` with `id` at the end.
    pub fn insert(&mut self, name: String, id: u64)
        requires
            old(self).wf(),
            !old(self)@.contains_key(name@),
        ensures
            final(self).wf(),
            final(self)@ == old(self)@.insert(name@, id),
            final(self).order() == old(self).order().push((name@, id)),
    {
        self.entries.push((name, id));
        proof {
            assert(self.order() =~= old(self).order().push((name@, id)));
            let want = old(self)@.insert(name@, id);
            assert forall|n: Seq<char>| #[trigger] self@.contains_key(n) <==> want.contains_key(
                n,
            ) by {
                if old(self)@.contains_key(n) {
                    let i = choose|i: int|
                        0 <= i < old(self).order().len() && #[trigger] old(self).order()[i] == (
                            n,
                            old(self)@[n],
                        );
                    assert(self.order()[i] == old(self).order()[i]);
                }
                if n == name@ {
                    assert(self.order()[old(self).order().len() as int].0 == n);
                }
            }
        }
    }

    /// Takes every name out.
    pub fn clear(&mut self)
        ensures
            final(self).wf(),
            final(self)@ == Map::<Seq<char>, u64>::empty(),
            final(self).order() == Seq::<(Seq<char>, u64)>::empty(),
    {
        self.entries.clear();
    }

    /// The first name in the table that has the identifier `id`.
    pub open spec fn named(&self, id: u64) -> Option<Seq<char>> {
        first_named(self.order(), id, 0)
    }

    /// An identifier has a first name exactly where some name has it.
    pub proof fn lemma_named(&self, id: u64)
        requires
            self.wf(),
        ensures
            self.named(id) is Some <==> exists|name: Seq<char>|
                #[trigger] self@.contains_key(name) && self@[name] == id,
    {
        lemma_first_named(self.order(), id, 0);
        if self.named(id) is Some {
            let i = choose|i: int| 0 <= i < self.order().len() && (#[trigger] self.order()[i]).1 == id;
            assert(self@.contains_key(self.order()[i].0));
        }
    }

    /// The first name in the table that has the identifier `id`.
    pub fn name_of(&self, id: u64) -> (r: Option<String>)
        ensures
            match r {
                Some(name) => self.named(id) == Some(name@),
                None => self.named(id) is None,
            },
    {
        let mut i: usize = 0;
        while i < self.entries.len()
            invariant
                i <= self.entries.len(),
                self.named(id) == first_named(self.order(), id, i as nat),
            decreases self.entries.len() - i,
        {
            if self.entries[i].1 == id {
                let name = self.entries[i].0.clone();
                return Some(name);
            }
            i += 1;
        }
        None
    }

    /// The name and the identifier at place `i`.
    pub fn entry(&self, i: usize) -> (r: (String, u64))
        requires
            i < self.order().len(),
        ensures
            (r.0@, r.1) == self.order()[i as int],
    {
        (self.entries[i].0.clone(), self.entries[i].1)
    }
}

/// The name of the first entry from place `from` on that has the identifier
/// `id`.
pub open spec fn first_named(order: Seq<(Seq<char>, u64)>, id: u64, from: nat) -> Option<Seq<char>>
    decreases order.len() - from,
{
    if from >= order.len() {
        None
    } else if order[from as int].1 == id {
        Some(order[from as int].0)
    } else {
        first_named(order, id, from + 1)
    }
}

/// There is a first entry with the identifier `id` from place `from` on
/// exactly where there is an entry with it.
pub proof fn lemma_first_named(order: Seq<(Seq<char>, u64)>, id: u64, from: nat)
    ensures
        first_named(order, id, from) is Some <==> exists|i: int|
            from <= i < order.len() && (#[trigger] order[i]).1 == id,
    decreases order.len() - from,
{
    if from < order.len() {
        lemma_first_named(order, id, from + 1);
    }
}
} // verus!
