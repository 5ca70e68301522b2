use vstd::prelude::*;

use crate::heap::ObjectRef;

verus! {

/// A script value as seen by scope resolution.
#[derive(Clone, Copy, Debug, PartialEq, Eq, Structural)]
pub enum Value {
    Undefined,
    Null,
    Bool(bool),
    Int(i64),
    Object(ObjectRef),
}

/// Attribute flags of a stored property.
#[derive(Clone, Copy, Debug, PartialEq, Eq, Structural)]
pub struct Attributes {
    /// The property cannot be deleted.
    pub dont_delete: bool,
    /// Assignments through `set` leave the property unchanged.
    pub read_only: bool,
}

impl Attributes {
    /// The empty flag set: deletable and writable.
    pub open spec fn none() -> Attributes {
        Attributes { dont_delete: false, read_only: false }
    }

    pub fn empty() -> (r: Attributes)
        ensures
            r == Attributes::none(),
    {
        Attributes { dont_delete: false, read_only: false }
    }
}

/// A stored property: its value and its attribute flags.
#[derive(Clone, Copy, Debug, PartialEq, Eq, Structural)]
pub struct Property {
    pub value: Value,
    pub attributes: Attributes,
}

/// The contents of a property bag: each name maps to its property.
pub type Bag = Map<Seq<char>, Property>;

/// The value stored under `name`, or `Undefined` where there is none.
pub open spec fn bag_get(bag: Bag, name: Seq<char>) -> Value {
    if bag.contains_key(name) {
        bag[name].value
    } else {
        Value::Undefined
    }
}

/// The bag after an ordinary assignment of `value` to `name`: a read-only
/// property keeps its value, an existing one keeps its flags, and a new one
/// gets the empty flag set.
pub open spec fn bag_assign(bag: Bag, name: Seq<char>, value: Value) -> Bag {
    if bag.contains_key(name) {
        if bag[name].attributes.read_only {
            bag
        } else {
            bag.insert(name, Property { value, attributes: bag[name].attributes })
        }
    } else {
        bag.insert(name, Property { value, attributes: Attributes::none() })
    }
}

/// Whether deleting `name` from the bag succeeds.
pub open spec fn bag_deletes(bag: Bag, name: Seq<char>) -> bool {
    bag.contains_key(name) && !bag[name].attributes.dont_delete
}

#[derive(Debug)]
struct Entry {
    name: String,
    property: Property,
}

/// A property bag: named properties with attribute flags.
#[derive(Debug)]
pub struct Object {
    entries: Vec<Entry>,
}

impl View for Object {
    type V = Bag;

    closed spec fn view(&self) -> Bag {
        Map::new(
            |k: Seq<char>| self.has_entry(k),
            |k: Seq<char>| self.entries@[self.index_of(k)].property,
        )
    }
}

impl Object {
    spec fn has_entry(&self, k: Seq<char>) -> bool {
        exists|i: int| 0 <= i < self.entries@.len() && #[trigger] self.entries@[i].name@ == k
    }

    spec fn index_of(&self, k: Seq<char>) -> int {
        choose|i: int| 0 <= i < self.entries@.len() && #[trigger] self.entries@[i].name@ == k
    }

    /// No two entries share a name.
    pub closed spec fn wf(&self) -> bool {
        forall|i: int, j: int|
            0 <= i < self.entries@.len() && 0 <= j < self.entries@.len() && i != j
                ==> #[trigger] self.entries@[i].name@ != #[trigger] self.entries@[j].name@
    }

    proof fn lemma_entry(&self, i: int)
        requires
            self.wf(),
            0 <= i < self.entries@.len(),
        ensures
            self@.contains_key(self.entries@[i].name@),
            self@[self.entries@[i].name@] == self.entries@[i].property,
    {
        let k = self.entries@[i].name@;
        assert(self.has_entry(k));
        let j = self.index_of(k);
        assert(self.entries@[j].name@ == k);
    }

    proof fn lemma_entries(&self)
        requires
            self.wf(),
        ensures
            forall|i: int|
                0 <= i < self.entries@.len() ==> #[trigger] self@.contains_key(
                    self.entries@[i].name@,
                ) && self@[self.entries@[i].name@] == self.entries@[i].property,
            forall|k: Seq<char>|
                #[trigger] self@.contains_key(k) ==> exists|i: int|
                    0 <= i < self.entries@.len() && self.entries@[i].name@ == k,
    {
        assert forall|i: int| 0 <= i < self.entries@.len() implies #[trigger] self@.contains_key(
            self.entries@[i].name@,
        ) && self@[self.entries@[i].name@] == self.entries@[i].property by {
            self.lemma_entry(i);
        }
    }

    fn find(&self, name: &String) -> (r: Option<usize>)
        ensures
            match r {
                Some(i) => i < self.entries@.len() && self.entries@[i as int].name@ == name@,
                None => forall|i: int|
                    0 <= i < self.entries@.len() ==> #[trigger] self.entries@[i].name@ != name@,
            },
    {
        let mut i: usize = 0;
        while i < self.entries.len()
            invariant
                i <= self.entries@.len(),
                forall|j: int| 0 <= j < i ==> #[trigger] self.entries@[j].name@ != name@,
            decreases self.entries@.len() - i,
        {
            if self.entries[i].name == *name {
                return Some(i);
            }
            i = i + 1;
        }
        None
    }

    /// A bag with no properties.
    pub fn bare_object() -> (r: Object)
        ensures
            r.wf(),
            r@ == Bag::empty(),
    {
        let r = Object { entries: Vec::new() };
        assert(r@ =~= Bag::empty());
        r
    }

    /// Whether the bag holds a property named `name`.
    pub fn has_property(&self, name: &str) -> (r: bool)
        requires
            self.wf(),
        ensures
            r == self@.contains_key(name@),
    {
        let key = name.to_owned();
        proof {
            self.lemma_entries();
        }
        match self.find(&key) {
            Some(_) => true,
            None => false,
        }
    }

    /// The value stored under `name`, read directly; `Undefined` if absent.
    pub fn force_get(&self, name: &str) -> (r: Value)
        requires
            self.wf(),
        ensures
            r == bag_get(self@, name@),
    {
        let key = name.to_owned();
        proof {
            self.lemma_entries();
        }
        match self.find(&key) {
            Some(i) => self.entries[i].property.value,
            None => Value::Undefined,
        }
    }

    /// Stores `value` under `name` with the given flags, replacing any
    /// property of that name.
    pub fn force_set(&mut self, name: &str, value: Value, attributes: Attributes)
        requires
            old(self).wf(),
        ensures
            final(self).wf(),
            final(self)@ == old(self)@.insert(name@, Property { value, attributes }),
    {
        let key = name.to_owned();
        let property = Property { value, attributes };
        self.put(key, property);
    }

    fn put(&mut self, key: String, property: Property)
        requires
            old(self).wf(),
        ensures
            final(self).wf(),
            final(self)@ == old(self)@.insert(key@, property),
    {
        proof {
            self.lemma_entries();
        }
        let ghost k = key@;
        let ghost before = *self;
        match self.find(&key) {
            Some(i) => {
                self.entries.set(i, Entry { name: key, property });
                proof {
                    self.lemma_entries();
                    assert forall|q: Seq<char>| #[trigger] self@.contains_key(q) <==> before@.insert(
                        k,
                        property,
                    ).contains_key(q) by {
                        if self@.contains_key(q) {
                            let j = choose|j: int|
                                0 <= j < self.entries@.len() && self.entries@[j].name@ == q;
                            if j != i {
                                assert(before.entries@[j].name@ == q);
                            }
                        }
                        if before@.contains_key(q) && q != k {
                            let j = choose|j: int|
                                0 <= j < before.entries@.len() && before.entries@[j].name@ == q;
                            assert(self.entries@[j].name@ == q);
                        }
                        if q == k {
                            assert(self.entries@[i as int].name@ == q);
                        }
                    }
                    assert forall|q: Seq<char>| #[trigger] self@.contains_key(q) implies self@[q]
                        == before@.insert(k, property)[q] by {
                        let j = choose|j: int|
                            0 <= j < self.entries@.len() && self.entries@[j].name@ == q;
                        if j != i {
                            assert(before.entries@[j].name@ == q);
                        }
                    }
                    assert(self@ =~= before@.insert(k, property));
                }
            },
            None => {
                self.entries.push(Entry { name: key, property });
                proof {
                    let n = before.entries@.len() as int;
                    self.lemma_entries();
                    assert forall|q: Seq<char>| #[trigger] self@.contains_key(q) <==> before@.insert(
                        k,
                        property,
                    ).contains_key(q) by {
                        if self@.contains_key(q) && q != k {
                            let j = choose|j: int|
                                0 <= j < self.entries@.len() && self.entries@[j].name@ == q;
                            assert(j != n);
                            assert(before.entries@[j].name@ == q);
                        }
                        if before@.contains_key(q) {
                            let j = choose|j: int|
                                0 <= j < before.entries@.len() && before.entries@[j].name@ == q;
                            assert(self.entries@[j].name@ == q);
                        }
                        if q == k {
                            assert(self.entries@[n].name@ == q);
                        }
                    }
                    assert forall|q: Seq<char>| #[trigger] self@.contains_key(q) implies self@[q]
                        == before@.insert(k, property)[q] by {
                        let j = choose|j: int|
                            0 <= j < self.entries@.len() && self.entries@[j].name@ == q;
                        if j != n {
                            assert(before.entries@[j].name@ == q);
                        }
                    }
                    assert(self@ =~= before@.insert(k, property));
                }
            },
        }
    }

    /// Ordinary assignment: see `bag_assign`.
    pub fn set(&mut self, name: &str, value: Value)
        requires
            old(self).wf(),
        ensures
            final(self).wf(),
            final(self)@ == bag_assign(old(self)@, name@, value),
    {
        let key = name.to_owned();
        proof {
            self.lemma_entries();
        }
        match self.find(&key) {
            Some(i) => {
                let current = self.entries[i].property;
                if !current.attributes.read_only {
                    self.put(key, Property { value, attributes: current.attributes });
                }
            },
            None => {
                self.put(key, Property { value, attributes: Attributes::empty() });
            },
        }
    }

    /// Removes the property named `name` unless it is flagged
    /// `dont_delete`; returns whether it was removed.
    pub fn delete(&mut self, name: &str) -> (r: bool)
        requires
            old(self).wf(),
        ensures
            final(self).wf(),
            r == bag_deletes(old(self)@, name@),
            final(self)@ == if r {
                old(self)@.remove(name@)
            } else {
                old(self)@
            },
    {
        let key = name.to_owned();
        proof {
            self.lemma_entries();
        }
        let ghost k = key@;
        let ghost before = *self;
        match self.find(&key) {
            Some(i) => {
                if self.entries[i].property.attributes.dont_delete {
                    false
                } else {
                    self.entries.remove(i);
                    proof {
                        let n = before.entries@.len() as int;
                        assert forall|a: int, b: int|
                            0 <= a < self.entries@.len() && 0 <= b < self.entries@.len() && a
                                != b implies #[trigger] self.entries@[a].name@
                            != #[trigger] self.entries@[b].name@ by {
                            let a0 = if a < i { a } else { a + 1 };
                            let b0 = if b < i { b } else { b + 1 };
                            assert(self.entries@[a] == before.entries@[a0]);
                            assert(self.entries@[b] == before.entries@[b0]);
                        }
                        self.lemma_entries();
                        assert forall|q: Seq<char>| #[trigger] self@.contains_key(q)
                            <==> before@.remove(k).contains_key(q) by {
                            if self@.contains_key(q) {
                                let j = choose|j: int|
                                    0 <= j < self.entries@.len() && self.entries@[j].name@ == q;
                                let j0 = if j < i { j } else { j + 1 };
                                assert(self.entries@[j] == before.entries@[j0]);
                                assert(j0 != i);
                            }
                            if before@.contains_key(q) && q != k {
                                let j = choose|j: int|
                                    0 <= j < before.entries@.len() && before.entries@[j].name@
                                        == q;
                                assert(j != i);
                                let j1 = if j < i { j } else { j - 1 };
                                assert(self.entries@[j1] == before.entries@[j]);
                            }
                        }
                        assert forall|q: Seq<char>| #[trigger] self@.contains_key(q) implies self@[q]
                            == before@.remove(k)[q] by {
                            let j = choose|j: int|
                                0 <= j < self.entries@.len() && self.entries@[j].name@ == q;
                            let j0 = if j < i { j } else { j + 1 };
                            assert(self.entries@[j] == before.entries@[j0]);
                        }
                        assert(self@ =~= before@.remove(k));
                    }
                    true
                }
            },
            None => false,
        }
    }
}

} // verus!
