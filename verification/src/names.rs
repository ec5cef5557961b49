//! Maps from names to values, in the order of the names.
use crate::text;
use crate::text::{before, same};
use vstd::prelude::*;

verus! {

/// A map by name. The entries are in strictly ascending order of their names.
#[derive(Debug)]
pub struct NameMap<V> {
    pub entries: Vec<(String, V)>,
}

impl<V> NameMap<V> {
    pub open spec fn wf(self) -> bool {
        forall|i: int, j: int|
            0 <= i < j < self.entries@.len() ==> text::text_lt(
                (#[trigger] self.entries@[i]).0@,
                (#[trigger] self.entries@[j]).0@,
            )
    }

    /// The name has a value.
    pub open spec fn has(self, name: Seq<char>) -> bool {
        exists|i: int| 0 <= i < self.entries@.len() && (#[trigger] self.entries@[i]).0@ == name
    }

    /// The place of a name.
    pub open spec fn place(self, name: Seq<char>) -> int {
        choose|i: int| 0 <= i < self.entries@.len() && (#[trigger] self.entries@[i]).0@ == name
    }

    /// The value of a name.
    pub open spec fn at(self, name: Seq<char>) -> V {
        self.entries@[self.place(name)].1
    }

    pub open spec fn lookup(self, name: Seq<char>) -> Option<V> {
        if self.has(name) {
            Some(self.at(name))
        } else {
            None
        }
    }

    /// The names, in order.
    pub open spec fn names(self) -> Seq<Seq<char>> {
        Seq::new(self.entries@.len(), |i: int| self.entries@[i].0@)
    }

    /// A name stands in one place only.
    pub proof fn lemma_place(self, i: int)
        requires
            self.wf(),
            0 <= i < self.entries@.len(),
        ensures
            self.has(self.entries@[i].0@),
            self.place(self.entries@[i].0@) == i,
            self.at(self.entries@[i].0@) == self.entries@[i].1,
    {
        let name = self.entries@[i].0@;
        let p = self.place(name);
        assert(self.entries@[p].0@ == name);
        text::lemma_before_irreflexive(name);
    }

    pub fn new() -> (m: NameMap<V>)
        ensures
            m.wf(),
            m.entries@.len() == 0,
    {
        NameMap { entries: Vec::new() }
    }

    pub fn len(&self) -> (n: usize)
        ensures
            n == self.entries@.len(),
    {
        self.entries.len()
    }

    /// The place of a name, if it has a value.
    pub fn index_of(&self, name: &str) -> (r: Option<usize>)
        requires
            self.wf(),
        ensures
            r is Some <==> self.has(name@),
            r matches Some(i) ==> i < self.entries@.len() && self.entries@[i as int].0@ == name@
                && i == self.place(name@),
    {
        let mut i: usize = 0;
        while i < self.entries.len()
            invariant
                self.wf(),
                i <= self.entries@.len(),
                forall|j: int| 0 <= j < i ==> (#[trigger] self.entries@[j]).0@ != name@,
            decreases self.entries@.len() - i,
        {
            if same(self.entries[i].0.as_str(), name) {
                proof {
                    self.lemma_place(i as int);
                }
                return Some(i);
            }
            i = i + 1;
        }
        None
    }

    pub fn contains(&self, name: &str) -> (r: bool)
        requires
            self.wf(),
        ensures
            r == self.has(name@),
    {
        self.index_of(name).is_some()
    }

    pub fn get(&self, name: &str) -> (r: Option<&V>)
        requires
            self.wf(),
        ensures
            r is Some <==> self.has(name@),
            r matches Some(v) ==> *v == self.at(name@),
    {
        match self.index_of(name) {
            Some(i) => Some(&self.entries[i].1),
            None => None,
        }
    }

    /// Sets the value of a name.
    pub fn insert(&mut self, name: String, value: V)
        requires
            old(self).wf(),
        ensures
            final(self).wf(),
            final(self).has(name@),
            final(self).at(name@) == value,
            forall|other: Seq<char>|
                other != name@ ==> #[trigger] final(self).lookup(other) == old(self).lookup(other),
            forall|other: Seq<char>|
                other != name@ ==> #[trigger] final(self).has(other) == old(self).has(other),
            final(self).entries@.len() == (if old(self).has(name@) {
                old(self).entries@.len()
            } else {
                old(self).entries@.len() + 1
            }),
    {
        let ghost start = *self;
        let ghost key = name@;
        let mut i: usize = 0;
        while i < self.entries.len() && before(self.entries[i].0.as_str(), name.as_str())
            invariant
                *self == start,
                i <= self.entries@.len(),
                key == name@,
                forall|j: int| 0 <= j < i ==> text::text_lt((#[trigger] self.entries@[j]).0@, key),
            decreases self.entries@.len() - i,
        {
            i = i + 1;
        }
        if i < self.entries.len() && same(self.entries[i].0.as_str(), name.as_str()) {
            proof {
                start.lemma_place(i as int);
            }
            self.entries.set(i, (name, value));
            proof {
                lemma_replaced(start, *self, i as int);
            }
        } else {
            proof {
                lemma_absent(start, key, i as int);
            }
            self.entries.insert(i, (name, value));
            proof {
                lemma_inserted(start, *self, i as int, key);
            }
        }
    }
}

proof fn lemma_absent<V>(m: NameMap<V>, key: Seq<char>, i: int)
    requires
        m.wf(),
        0 <= i <= m.entries@.len(),
        forall|j: int| 0 <= j < i ==> text::text_lt((#[trigger] m.entries@[j]).0@, key),
        i < m.entries@.len() ==> !text::text_lt(m.entries@[i].0@, key) && m.entries@[i].0@ != key,
    ensures
        !m.has(key),
        forall|j: int|
            i <= j < m.entries@.len() ==> text::text_lt(key, (#[trigger] m.entries@[j]).0@),
{
    text::lemma_before_irreflexive(key);
    if i < m.entries@.len() {
        text::lemma_before_total(m.entries@[i].0@, key);
        assert forall|j: int| i <= j < m.entries@.len() implies text::text_lt(
            key,
            (#[trigger] m.entries@[j]).0@,
        ) by {
            if i < j {
                text::lemma_before_transitive(key, m.entries@[i].0@, m.entries@[j].0@);
            }
        }
    }
}

proof fn lemma_replaced<V>(a: NameMap<V>, b: NameMap<V>, i: int)
    requires
        a.wf(),
        0 <= i < a.entries@.len(),
        b.entries@.len() == a.entries@.len(),
        b.entries@[i].0@ == a.entries@[i].0@,
        forall|j: int|
            0 <= j < a.entries@.len() && j != i ==> #[trigger] b.entries@[j] == a.entries@[j],
    ensures
        b.wf(),
        b.has(a.entries@[i].0@),
        b.at(a.entries@[i].0@) == b.entries@[i].1,
        forall|other: Seq<char>|
            other != a.entries@[i].0@ ==> #[trigger] b.lookup(other) == a.lookup(other),
        forall|other: Seq<char>|
            other != a.entries@[i].0@ ==> #[trigger] b.has(other) == a.has(other),
{
    assert forall|j: int| 0 <= j < a.entries@.len() implies (#[trigger] b.entries@[j]).0@
        == a.entries@[j].0@ by {}
    assert(b.wf());
    b.lemma_place(i);
    assert forall|other: Seq<char>| other != a.entries@[i].0@ implies #[trigger] b.lookup(other)
        == a.lookup(other) && b.has(other) == a.has(other) by {
        if a.has(other) {
            let p = a.place(other);
            a.lemma_place(p);
            b.lemma_place(p);
        }
        if b.has(other) {
            let p = b.place(other);
            a.lemma_place(p);
            b.lemma_place(p);
        }
    }
    assert forall|other: Seq<char>| other != a.entries@[i].0@ implies #[trigger] b.has(other)
        == a.has(other) by {
        assert(b.lookup(other) == a.lookup(other));
    }
}

proof fn lemma_inserted<V>(a: NameMap<V>, b: NameMap<V>, i: int, key: Seq<char>)
    requires
        a.wf(),
        0 <= i <= a.entries@.len(),
        b.entries@.len() == a.entries@.len() + 1,
        b.entries@[i].0@ == key,
        !a.has(key),
        forall|j: int| 0 <= j < i ==> text::text_lt((#[trigger] a.entries@[j]).0@, key),
        forall|j: int|
            i <= j < a.entries@.len() ==> text::text_lt(key, (#[trigger] a.entries@[j]).0@),
        forall|j: int| 0 <= j < i ==> #[trigger] b.entries@[j] == a.entries@[j],
        forall|j: int| i < j < b.entries@.len() ==> #[trigger] b.entries@[j] == a.entries@[j - 1],
    ensures
        b.wf(),
        b.has(key),
        b.at(key) == b.entries@[i].1,
        forall|other: Seq<char>| other != key ==> #[trigger] b.lookup(other) == a.lookup(other),
        forall|other: Seq<char>| other != key ==> #[trigger] b.has(other) == a.has(other),
{
    assert forall|j: int, k: int| 0 <= j < k < b.entries@.len() implies text::text_lt(
        (#[trigger] b.entries@[j]).0@,
        (#[trigger] b.entries@[k]).0@,
    ) by {
        let ja = if j < i { j } else { j - 1 };
        let ka = if k < i { k } else { k - 1 };
        if j != i {
            assert(b.entries@[j] == a.entries@[ja]);
        }
        if k != i {
            assert(b.entries@[k] == a.entries@[ka]);
        }
    }
    b.lemma_place(i);
    assert forall|other: Seq<char>| other != key implies #[trigger] b.lookup(other) == a.lookup(
        other,
    ) && b.has(other) == a.has(other) by {
        if a.has(other) {
            let p = a.place(other);
            a.lemma_place(p);
            let q = if p < i { p } else { p + 1 };
            assert(b.entries@[q] == a.entries@[p]);
            b.lemma_place(q);
        }
        if b.has(other) {
            let q = b.place(other);
            b.lemma_place(q);
            let p = if q < i { q } else { q - 1 };
            assert(b.entries@[q] == a.entries@[p]);
            a.lemma_place(p);
        }
    }
    assert forall|other: Seq<char>| other != key implies #[trigger] b.has(other) == a.has(
        other,
    ) by {
        assert(b.lookup(other) == a.lookup(other));
    }
}

} // verus!
