//! The simulation's named forces, kept in the order they were first added.
//!
//! Adding a force under a name already in use replaces that force in its
//! slot; adding one under a new name appends it. Forces run in this order
//! every tick.

use vstd::prelude::*;

verus! {

/// The position of `key` in `names`, if it occurs there.
pub open spec fn name_index(names: Seq<Seq<char>>, key: Seq<char>) -> Option<int>
    decreases names.len(),
{
    if names.len() == 0 {
        None
    } else {
        match name_index(names.drop_last(), key) {
            Some(i) => Some(i),
            None => if names.last() == key {
                Some(names.len() - 1)
            } else {
                None
            },
        }
    }
}

/// No name occurs twice.
pub open spec fn distinct_names(names: Seq<Seq<char>>) -> bool {
    forall|i: int, j: int| 0 <= i < j < names.len() ==> #[trigger] names[i] != #[trigger] names[j]
}

/// Where `name_index` finds a name, and when it finds none.
pub proof fn lemma_name_index(names: Seq<Seq<char>>, key: Seq<char>)
    ensures
        name_index(names, key) is None <==> !names.contains(key),
        name_index(names, key) matches Some(i) ==> 0 <= i < names.len() && names[i] == key
            && forall|j: int| 0 <= j < i ==> #[trigger] names[j] != key,
    decreases names.len(),
{
    if names.len() > 0 {
        let dl = names.drop_last();
        lemma_name_index(dl, key);
        if dl.contains(key) {
            let w = choose|w: int| 0 <= w < dl.len() && dl[w] == key;
            assert(names[w] == key);
        }
        if names.contains(key) && !dl.contains(key) {
            let w = choose|w: int| 0 <= w < names.len() && names[w] == key;
            if w < dl.len() {
                assert(dl[w] == key);
            }
        }
        match name_index(dl, key) {
            Some(i) => {
                assert forall|j: int| 0 <= j < i implies #[trigger] names[j] != key by {
                    assert(names[j] == dl[j]);
                }
            },
            None => {
                assert forall|j: int| 0 <= j < names.len() - 1 implies #[trigger] names[j] != key by {
                    assert(names[j] == dl[j]);
                    if dl[j] == key {
                        assert(dl.contains(key));
                    }
                }
            },
        }
    }
}

/// Named forces in insertion order.
pub struct Forces<T> {
    names: Vec<String>,
    items: Vec<T>,
}

/// The abstract state of [`Forces`]: the names, and the forces, slot by slot.
pub struct ForcesView<T> {
    pub names: Seq<Seq<char>>,
    pub items: Seq<T>,
}

impl<T> ForcesView<T> {
    /// The forces after `simulation.force(name, item)`.
    pub open spec fn inserted(self, name: Seq<char>, item: T) -> ForcesView<T> {
        match name_index(self.names, name) {
            Some(i) => ForcesView { names: self.names, items: self.items.update(i, item) },
            None => ForcesView { names: self.names.push(name), items: self.items.push(item) },
        }
    }

    /// The forces after `simulation.force(name, null)`.
    pub open spec fn removed(self, name: Seq<char>) -> ForcesView<T> {
        match name_index(self.names, name) {
            Some(i) => ForcesView { names: self.names.remove(i), items: self.items.remove(i) },
            None => self,
        }
    }
}

impl<T> View for Forces<T> {
    type V = ForcesView<T>;

    closed spec fn view(&self) -> ForcesView<T> {
        ForcesView { names: self.names@.map_values(|s: String| s@), items: self.items@ }
    }
}

impl<T> Forces<T> {
    /// One force per name, and one name per force.
    pub open spec fn wf(&self) -> bool {
        &&& self@.names.len() == self@.items.len()
        &&& distinct_names(self@.names)
    }

    /// No forces.
    pub fn new() -> (r: Forces<T>)
        ensures
            r.wf(),
            r@.names.len() == 0,
            r@.items.len() == 0,
    {
        let r = Forces { names: Vec::new(), items: Vec::new() };
        assert(r@.names =~= Seq::<Seq<char>>::empty());
        r
    }

    /// Number of forces.
    pub fn len(&self) -> (r: usize)
        requires
            self.wf(),
        ensures
            r == self@.items.len(),
    {
        self.items.len()
    }

    /// The slot of the force called `name`, if any.
    pub fn position(&self, name: &str) -> (r: Option<usize>)
        requires
            self.wf(),
        ensures
            r matches Some(i) ==> name_index(self@.names, name@) == Some(i as int),
            r is None ==> name_index(self@.names, name@) is None,
    {
        let key = name.to_owned();
        let n = self.names.len();
        let mut i: usize = 0;
        while i < n
            invariant
                n == self.names@.len(),
                i <= n,
                key@ == name@,
                forall|j: int| 0 <= j < i ==> #[trigger] self.names@[j]@ != key@,
            decreases n - i,
        {
            if self.names[i] == key {
                proof {
                    lemma_name_index(self@.names, name@);
                    assert(self@.names[i as int] == name@);
                    assert(self@.names.contains(name@));
                    if let Some(w) = name_index(self@.names, name@) {
                        if w < i {
                            assert(self@.names[w] == self.names@[w]@);
                        }
                        if w > i {
                            assert(self@.names[i as int] != name@);
                        }
                    }
                }
                return Some(i);
            }
            i = i + 1;
        }
        proof {
            lemma_name_index(self@.names, name@);
            if self@.names.contains(name@) {
                let w = choose|w: int| 0 <= w < self@.names.len() && self@.names[w] == name@;
                assert(self.names@[w]@ == name@);
            }
        }
        None
    }

    /// `simulation.force(name, force)`: replace the force called `name` in
    /// its slot, or append it under that name.
    pub fn insert(&mut self, name: String, item: T)
        requires
            old(self).wf(),
        ensures
            final(self).wf(),
            final(self)@ == old(self)@.inserted(name@, item),
    {
        let ghost on = self@.names;
        proof {
            lemma_name_index(on, name@);
        }
        match self.position(name.as_str()) {
            Some(i) => {
                self.items.set(i, item);
                assert(self@.names =~= on);
            },
            None => {
                self.names.push(name);
                self.items.push(item);
                assert(self@.names =~= on.push(name@));
                assert forall|a: int, b: int| 0 <= a < b < self@.names.len() implies #[trigger] self@.names[a]
                    != #[trigger] self@.names[b] by {
                    if b == on.len() {
                        assert(on[a] == self@.names[a]);
                    }
                }
            },
        }
    }

    /// `simulation.force(name, null)`: take out the force called `name`,
    /// closing its slot.
    pub fn remove(&mut self, name: &str) -> (r: Option<T>)
        requires
            old(self).wf(),
        ensures
            final(self).wf(),
            final(self)@ == old(self)@.removed(name@),
            match name_index(old(self)@.names, name@) {
                Some(i) => r == Some(old(self)@.items[i]),
                None => r is None,
            },
            match name_index(old(self)@.names, name@) {
                Some(i) => {
                    &&& final(self)@.names.len() + 1 == old(self)@.names.len()
                    &&& final(self)@.items.len() + 1 == old(self)@.items.len()
                    &&& forall|j: int|
                        0 <= j < i ==> #[trigger] final(self)@.names[j] == old(self)@.names[j]
                            && final(self)@.items[j] == old(self)@.items[j]
                    &&& forall|j: int|
                        i <= j < final(self)@.names.len() ==> #[trigger] final(self)@.names[j]
                            == old(self)@.names[j + 1] && final(self)@.items[j] == old(self)@.items[j
                            + 1]
                },
                None => final(self)@.names == old(self)@.names && final(self)@.items == old(self)@.items,
            },
    {
        let ghost on = self@.names;
        proof {
            lemma_name_index(on, name@);
        }
        match self.position(name) {
            Some(i) => {
                let _ = self.names.remove(i);
                let item = self.items.remove(i);
                assert(self@.names =~= on.remove(i as int));
                assert forall|a: int, b: int| 0 <= a < b < self@.names.len() implies #[trigger] self@.names[a]
                    != #[trigger] self@.names[b] by {
                    let oa = if a < i { a } else { a + 1 };
                    let ob = if b < i { b } else { b + 1 };
                    assert(self@.names[a] == on[oa]);
                    assert(self@.names[b] == on[ob]);
                }
                Some(item)
            },
            None => None,
        }
    }

    /// The force called `name`, if any.
    pub fn get(&self, name: &str) -> (r: Option<&T>)
        requires
            self.wf(),
        ensures
            match name_index(self@.names, name@) {
                Some(i) => r == Some(&self@.items[i]),
                None => r is None,
            },
    {
        proof {
            lemma_name_index(self@.names, name@);
        }
        match self.position(name) {
            Some(i) => Some(&self.items[i]),
            None => None,
        }
    }

    /// The force in slot `i`.
    pub fn item(&self, i: usize) -> (r: &T)
        requires
            self.wf(),
            i < self@.items.len(),
        ensures
            *r == self@.items[i as int],
    {
        &self.items[i]
    }

    /// The force in slot `i`, to update in place.
    pub fn item_mut(&mut self, i: usize) -> (r: &mut T)
        requires
            old(self).wf(),
            i < old(self)@.items.len(),
        ensures
            *r == old(self)@.items[i as int],
            final(self)@.names == old(self)@.names,
            final(self)@.items == old(self)@.items.update(i as int, *final(r)),
    {
        &mut self.items[i]
    }

    /// The names, slot by slot.
    pub fn names(&self) -> (r: &[String])
        requires
            self.wf(),
        ensures
            r@.map_values(|s: String| s@) == self@.names,
    {
        self.names.as_slice()
    }
}

/// Adding a force under a name that is not in use and then removing that
/// name gives back the forces as they were.
pub proof fn lemma_insert_then_remove<T>(v: ForcesView<T>, name: Seq<char>, item: T)
    requires
        v.names.len() == v.items.len(),
        !v.names.contains(name),
    ensures
        v.inserted(name, item).removed(name) == v,
{
    lemma_name_index(v.names, name);
    let w = v.inserted(name, item);
    lemma_name_index(w.names, name);
    assert(w.names[v.names.len() as int] == name);
    if let Some(i) = name_index(w.names, name) {
        if i < v.names.len() {
            assert(w.names[i] == v.names[i]);
            assert(v.names.contains(name));
        }
    }
    assert(w.removed(name).names =~= v.names);
    assert(w.removed(name).items =~= v.items);
}

/// Adding twice under one name leaves only the second force, in the slot
/// the first one took.
pub proof fn lemma_insert_twice<T>(v: ForcesView<T>, name: Seq<char>, a: T, b: T)
    requires
        v.names.len() == v.items.len(),
    ensures
        v.inserted(name, a).inserted(name, b) == v.inserted(name, b),
{
    lemma_name_index(v.names, name);
    let w = v.inserted(name, a);
    lemma_name_index(w.names, name);
    match name_index(v.names, name) {
        Some(i) => {
            assert(w.items.update(i, b) =~= v.items.update(i, b));
        },
        None => {
            assert(w.names[v.names.len() as int] == name);
            if let Some(j) = name_index(w.names, name) {
                if j < v.names.len() {
                    assert(w.names[j] == v.names[j]);
                    assert(v.names.contains(name));
                }
            }
            assert(w.items.update(v.names.len() as int, b) =~= v.items.push(b));
        },
    }
}

/// Adding or removing a force leaves every other name in the same relative
/// order, and adding makes the name present.
pub proof fn lemma_insert_keeps_order<T>(v: ForcesView<T>, name: Seq<char>, item: T)
    requires
        v.names.len() == v.items.len(),
    ensures
        v.inserted(name, item).names.contains(name),
        v.names.is_prefix_of(v.inserted(name, item).names),
        v.inserted(name, item).items.len() == v.inserted(name, item).names.len(),
{
    lemma_name_index(v.names, name);
    let w = v.inserted(name, item);
    if let Some(i) = name_index(v.names, name) {
        assert(w.names[i] == name);
    } else {
        assert(w.names[v.names.len() as int] == name);
    }
    assert(v.names =~= w.names.take(v.names.len() as int));
}

/// Removing a name closes its slot (the first one holding that name): the
/// forces before it stay where they were and every force after it moves up
/// by one, so the remaining forces run in the same relative order as
/// before. Removing an absent name changes nothing.
pub proof fn lemma_remove_keeps_order<T>(v: ForcesView<T>, name: Seq<char>)
    requires
        v.names.len() == v.items.len(),
    ensures
        v.names.contains(name) ==> {
            let w = v.removed(name);
            &&& w.names.len() + 1 == v.names.len()
            &&& w.items.len() == w.names.len()
            &&& exists|i: int|
                0 <= i < v.names.len() && v.names[i] == name && (forall|k: int|
                    0 <= k < i ==> #[trigger] v.names[k] != name) && (forall|j: int|
                    0 <= j < i ==> #[trigger] w.names[j] == v.names[j] && w.items[j] == v.items[j])
                    && (forall|j: int|
                    i <= j < w.names.len() ==> #[trigger] w.names[j] == v.names[j + 1] && w.items[j]
                        == v.items[j + 1])
        },
        !v.names.contains(name) ==> v.removed(name) == v,
{
    lemma_name_index(v.names, name);
    let w = v.removed(name);
    if let Some(i) = name_index(v.names, name) {
        assert forall|j: int| 0 <= j < i implies #[trigger] w.names[j] == v.names[j] && w.items[j]
            == v.items[j] by {}
        assert forall|j: int| i <= j < w.names.len() implies #[trigger] w.names[j] == v.names[j + 1]
            && w.items[j] == v.items[j + 1] by {}
    }
}

/// Adding under a name in use replaces that force (at the first slot with
/// that name) and touches nothing else; adding under a new name appends
/// the name and the force at the end.
pub proof fn lemma_insert_sets_item<T>(v: ForcesView<T>, name: Seq<char>, item: T)
    requires
        v.names.len() == v.items.len(),
    ensures
        v.names.contains(name) ==> {
            let w = v.inserted(name, item);
            &&& w.names == v.names
            &&& w.items.len() == v.items.len()
            &&& exists|i: int|
                0 <= i < v.names.len() && v.names[i] == name && (forall|k: int|
                    0 <= k < i ==> #[trigger] v.names[k] != name) && w.items[i] == item && (forall|j: int|
                    0 <= j < v.items.len() && j != i ==> #[trigger] w.items[j] == v.items[j])
        },
        !v.names.contains(name) ==> v.inserted(name, item).names == v.names.push(name)
            && v.inserted(name, item).items == v.items.push(item),
{
    lemma_name_index(v.names, name);
}

} // verus!
