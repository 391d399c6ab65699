//! A table from names to values, kept in the order in which the names
//! came. No name occurs twice.

use vstd::prelude::*;
use vstd::string::*;
use vstd::utf8::*;

verus! {

/// Whether two strings hold the same text.
pub fn same_text(a: &str, b: &str) -> (r: bool)
    ensures
        r == (a@ == b@),
{
    let x = a.as_bytes();
    let y = b.as_bytes();
    proof {
        encode_utf8_decode_utf8(a@);
        encode_utf8_decode_utf8(b@);
    }
    if x.len() != y.len() {
        return false;
    }
    let mut i: usize = 0;
    while i < x.len()
        invariant
            i <= x@.len(),
            x@.len() == y@.len(),
            forall|j: int| 0 <= j < i ==> x@[j] == y@[j],
            x@ == a.spec_bytes(),
            y@ == b.spec_bytes(),
        decreases x@.len() - i,
    {
        if x[i] != y[i] {
            assert(a@ == b@ ==> x@[i as int] == y@[i as int]);
            return false;
        }
        i += 1;
    }
    assert(x@ =~= y@);
    true
}

/// A table from names to values.
#[derive(Debug, PartialEq, Eq)]
pub struct NameTable<V> {
    /// The names with their values, in the order in which the names were
    /// first entered.
    pub entries: Vec<(String, V)>,
}

impl<V> NameTable<V> {
    /// No name occurs twice.
    pub open spec fn wf(&self) -> bool {
        forall|i: int, j: int|
            0 <= i < j < self.entries@.len() ==> (#[trigger] self.entries@[i]).0@ != (
            #[trigger] self.entries@[j]).0@
    }

    /// Whether the table has an entry for `name`.
    pub open spec fn has(&self, name: Seq<char>) -> bool {
        exists|i: int| 0 <= i < self.entries@.len() && (#[trigger] self.entries@[i]).0@ == name
    }

    /// The place of the entry for `name`.
    pub open spec fn place(&self, name: Seq<char>) -> int {
        choose|i: int| 0 <= i < self.entries@.len() && (#[trigger] self.entries@[i]).0@ == name
    }

    /// The table as a map from names to values.
    pub open spec fn view(&self) -> Map<Seq<char>, V> {
        Map::new(|n: Seq<char>| self.has(n), |n: Seq<char>| self.entries@[self.place(n)].1)
    }

    /// In a well-formed table the entry at place `i` is the one that the
    /// map has for its name.
    pub proof fn lemma_entry(&self, i: int)
        requires
            self.wf(),
            0 <= i < self.entries@.len(),
        ensures
            self.has(self.entries@[i].0@),
            self.place(self.entries@[i].0@) == i,
            self@.contains_key(self.entries@[i].0@),
            self@[self.entries@[i].0@] == self.entries@[i].1,
    {
        let n = self.entries@[i].0@;
        let p = self.place(n);
        assert(0 <= p < self.entries@.len() && self.entries@[p].0@ == n);
        if p < i {
            assert(self.entries@[p].0@ != self.entries@[i].0@);
        } else if i < p {
            assert(self.entries@[i].0@ != self.entries@[p].0@);
        }
    }

    /// A table stays well-formed when the value of one entry is changed
    /// in place, and maps the name of that entry to the new value; every
    /// other name keeps its value.
    pub proof fn lemma_value_changed(&self, after: &Self, i: int)
        requires
            self.wf(),
            0 <= i < self.entries@.len(),
            after.entries@.len() == self.entries@.len(),
            forall|j: int|
                0 <= j < self.entries@.len() ==> (#[trigger] after.entries@[j]).0@
                    == self.entries@[j].0@,
            forall|j: int|
                0 <= j < self.entries@.len() && j != i ==> (#[trigger] after.entries@[j]).1
                    == self.entries@[j].1,
        ensures
            after.wf(),
            forall|n: Seq<char>| after.has(n) == self.has(n),
            after@ == self@.insert(self.entries@[i].0@, after.entries@[i].1),
    {
        assert(after.wf()) by {
            assert forall|a: int, b: int| 0 <= a < b < after.entries@.len() implies (
            #[trigger] after.entries@[a]).0@ != (#[trigger] after.entries@[b]).0@ by {
                assert(self.entries@[a].0@ != self.entries@[b].0@);
            }
        }
        assert forall|n: Seq<char>| after.has(n) == self.has(n) by {
            if self.has(n) {
                let p = self.place(n);
                assert(after.entries@[p].0@ == n);
            }
            if after.has(n) {
                let p = after.place(n);
                assert(self.entries@[p].0@ == n);
            }
        }
        let goal = self@.insert(self.entries@[i].0@, after.entries@[i].1);
        assert forall|n: Seq<char>| after.has(n) implies after@[n] == goal[n] by {
            let p = after.place(n);
            after.lemma_entry(p);
            self.lemma_entry(p);
        }
        self.lemma_entry(i);
        assert(after@ =~= goal);
    }

    /// An empty table.
    pub fn new() -> (r: Self)
        ensures
            r.wf(),
            r@ == Map::<Seq<char>, V>::empty(),
            r.entries@.len() == 0,
    {
        let r = NameTable { entries: Vec::new() };
        assert(r@ =~= Map::<Seq<char>, V>::empty());
        r
    }

    /// The number of names.
    pub fn len(&self) -> (n: usize)
        ensures
            n == self.entries@.len(),
    {
        self.entries.len()
    }

    /// The place of the entry for `name`, if there is one.
    pub fn find(&self, name: &str) -> (r: Option<usize>)
        ensures
            match r {
                Some(i) => i < self.entries@.len() && self.entries@[i as int].0@ == name@
                    && self.has(name@),
                None => !self.has(name@),
            },
            self.wf() && r is Some ==> r->0 == self.place(name@),
    {
        let mut i: usize = 0;
        while i < self.entries.len()
            invariant
                i <= self.entries@.len(),
                forall|j: int| 0 <= j < i ==> (#[trigger] self.entries@[j]).0@ != name@,
            decreases self.entries@.len() - i,
        {
            if same_text(self.entries[i].0.as_str(), name) {
                proof {
                    if self.wf() {
                        self.lemma_entry(i as int);
                    }
                }
                return Some(i);
            }
            i += 1;
        }
        None
    }

    /// Whether the table has an entry for `name`.
    pub fn contains_key(&self, name: &str) -> (r: bool)
        ensures
            r == self@.contains_key(name@),
    {
        self.find(name).is_some()
    }

    /// The value for `name`, if there is one.
    pub fn get(&self, name: &str) -> (r: Option<&V>)
        requires
            self.wf(),
        ensures
            match r {
                Some(v) => self@.contains_key(name@) && *v == self@[name@],
                None => !self@.contains_key(name@),
            },
    {
        match self.find(name) {
            Some(i) => {
                proof {
                    self.lemma_entry(i as int);
                }
                Some(&self.entries[i].1)
            },
            None => None,
        }
    }

    /// Enters `value` for `name`: in place of the value that the name had,
    /// or else as a new entry at the end.
    pub fn insert(&mut self, name: String, value: V)
        requires
            old(self).wf(),
        ensures
            final(self).wf(),
            final(self)@ == old(self)@.insert(name@, value),
    {
        let ghost before = *self;
        match self.find(name.as_str()) {
            Some(i) => {
                self.entries[i] = (name, value);
                proof {
                    before.lemma_value_changed(&*self, i as int);
                }
            },
            None => {
                self.entries.push((name, value));
                proof {
                    let after = *self;
                    let last = before.entries@.len() as int;
                    assert(after.wf()) by {
                        assert forall|a: int, b: int|
                            0 <= a < b < after.entries@.len() implies (
                        #[trigger] after.entries@[a]).0@ != (#[trigger] after.entries@[b]).0@ by {
                            if b < last {
                                assert(before.entries@[a].0@ != before.entries@[b].0@);
                            } else {
                                assert(before.entries@[a].0@ != name@);
                            }
                        }
                    }
                    assert forall|n: Seq<char>| after.has(n) == (before.has(n) || n == name@) by {
                        if before.has(n) {
                            let p = before.place(n);
                            assert(after.entries@[p].0@ == n);
                        }
                        if n == name@ {
                            assert(after.entries@[last].0@ == n);
                        }
                        if after.has(n) {
                            let p = after.place(n);
                            if p < last {
                                assert(before.entries@[p].0@ == n);
                            }
                        }
                    }
                    assert forall|n: Seq<char>| after.has(n) implies after@[n] == before@.insert(
                        name@,
                        value,
                    )[n] by {
                        let p = after.place(n);
                        after.lemma_entry(p);
                        if p < last {
                            before.lemma_entry(p);
                        }
                    }
                    assert(after@ =~= before@.insert(name@, value));
                }
            },
        }
    }
}

} // verus!
