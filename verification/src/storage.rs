//! Sparse per-type component storage.
//!
//! A storage maps entities to component values of one type. Its model is a
//! `Map` from entity to value together with the sequence of its entities in
//! the order in which they were first inserted.

use crate::entity::Entity;
use vstd::prelude::*;

verus! {

/// The map that a sequence of keys and a sequence of values stand for: key
/// `keys[i]` holds `values[i]`.
pub open spec fn entries_map<T>(keys: Seq<Entity>, values: Seq<T>) -> Map<Entity, T> {
    Map::new(|e: Entity| keys.contains(e), |e: Entity| values[keys.index_of(e)])
}

/// The sequence without every occurrence of the entity, the rest in order.
pub open spec fn without(s: Seq<Entity>, entity: Entity) -> Seq<Entity> {
    s.filter(|e: Entity| e != entity)
}

/// In a sequence without repeats an element is found again at its own index.
pub proof fn lemma_index_of_unique<A>(s: Seq<A>, i: int)
    requires
        s.no_duplicates(),
        0 <= i < s.len(),
    ensures
        s.contains(s[i]),
        s.index_of(s[i]) == i,
{
    let j = s.index_of(s[i]);
    assert(0 <= j < s.len() && s[j] == s[i]);
}

/// The entry at index `i` of the sequences is the entry of the map under
/// `keys[i]`.
pub proof fn lemma_entries_map_index<T>(keys: Seq<Entity>, values: Seq<T>, i: int)
    requires
        keys.no_duplicates(),
        0 <= i < keys.len(),
    ensures
        entries_map(keys, values).contains_key(keys[i]),
        entries_map(keys, values)[keys[i]] == values[i],
{
    lemma_index_of_unique(keys, i);
}

/// Replacing the value at index `i` is an insert under `keys[i]`.
proof fn lemma_entries_map_update<T>(keys: Seq<Entity>, values: Seq<T>, i: int, value: T)
    requires
        keys.no_duplicates(),
        keys.len() == values.len(),
        0 <= i < keys.len(),
    ensures
        entries_map(keys, values.update(i, value)) == entries_map(keys, values).insert(
            keys[i],
            value,
        ),
{
    let before = entries_map(keys, values);
    let after = entries_map(keys, values.update(i, value));
    lemma_index_of_unique(keys, i);
    assert forall|e: Entity| after.contains_key(e) implies #[trigger] after[e] == before.insert(
        keys[i],
        value,
    )[e] by {
        let j = keys.index_of(e);
        assert(0 <= j < keys.len() && keys[j] == e);
        lemma_index_of_unique(keys, j);
    }
    assert(after =~= before.insert(keys[i], value));
}

/// Appending a fresh key with its value is an insert under that key.
proof fn lemma_entries_map_push<T>(keys: Seq<Entity>, values: Seq<T>, entity: Entity, value: T)
    requires
        keys.no_duplicates(),
        keys.len() == values.len(),
        !keys.contains(entity),
    ensures
        keys.push(entity).no_duplicates(),
        entries_map(keys.push(entity), values.push(value)) == entries_map(keys, values).insert(
            entity,
            value,
        ),
{
    let keys2 = keys.push(entity);
    let values2 = values.push(value);
    let before = entries_map(keys, values);
    let after = entries_map(keys2, values2);
    assert(keys2.no_duplicates()) by {
        assert forall|i: int, j: int|
            0 <= i < keys2.len() && 0 <= j < keys2.len() && i != j implies keys2[i] != keys2[j] by {
            if i < keys.len() && j < keys.len() {
                assert(keys[i] != keys[j]);
            } else if i < keys.len() {
                assert(keys.contains(keys[i]));
            } else {
                assert(keys.contains(keys[j]));
            }
        }
    }
    assert(keys2[keys.len() as int] == entity);
    lemma_index_of_unique(keys2, keys.len() as int);
    assert forall|e: Entity| after.contains_key(e) <==> before.insert(entity, value).contains_key(
        e,
    ) by {
        if keys2.contains(e) {
            let j = keys2.index_of(e);
            assert(0 <= j < keys2.len() && keys2[j] == e);
            if j < keys.len() {
                assert(keys[j] == e);
            }
        }
        if keys.contains(e) {
            let j = keys.index_of(e);
            assert(0 <= j < keys.len() && keys[j] == e);
            assert(keys2[j] == e);
        }
    }
    assert forall|e: Entity| after.contains_key(e) implies #[trigger] after[e] == before.insert(
        entity,
        value,
    )[e] by {
        let j = keys2.index_of(e);
        assert(0 <= j < keys2.len() && keys2[j] == e);
        if j < keys.len() {
            assert(keys[j] == e);
            lemma_index_of_unique(keys, j);
        }
    }
    assert(after =~= before.insert(entity, value));
}

/// Taking out the entry at index `i` removes `keys[i]` from the map.
proof fn lemma_entries_map_remove<T>(keys: Seq<Entity>, values: Seq<T>, i: int)
    requires
        keys.no_duplicates(),
        keys.len() == values.len(),
        0 <= i < keys.len(),
    ensures
        keys.remove(i).no_duplicates(),
        !keys.remove(i).contains(keys[i]),
        entries_map(keys.remove(i), values.remove(i)) == entries_map(keys, values).remove(keys[i]),
{
    let keys2 = keys.remove(i);
    let values2 = values.remove(i);
    let before = entries_map(keys, values);
    let after = entries_map(keys2, values2);
    assert forall|j: int| 0 <= j < keys2.len() implies #[trigger] keys2[j] == keys[if j < i {
        j
    } else {
        j + 1
    }] && values2[j] == values[if j < i {
        j
    } else {
        j + 1
    }] by {}
    assert(keys2.no_duplicates()) by {
        assert forall|a: int, b: int|
            0 <= a < keys2.len() && 0 <= b < keys2.len() && a != b implies keys2[a] != keys2[b] by {
            let a1 = if a < i {
                a
            } else {
                a + 1
            };
            let b1 = if b < i {
                b
            } else {
                b + 1
            };
            assert(keys2[a] == keys[a1] && keys2[b] == keys[b1]);
        }
    }
    assert(!keys2.contains(keys[i])) by {
        if keys2.contains(keys[i]) {
            let j = keys2.index_of(keys[i]);
            assert(0 <= j < keys2.len() && keys2[j] == keys[i]);
            let j1 = if j < i {
                j
            } else {
                j + 1
            };
            assert(keys2[j] == keys[j1]);
        }
    }
    assert forall|e: Entity| after.contains_key(e) <==> before.remove(keys[i]).contains_key(
        e,
    ) by {
        if keys2.contains(e) {
            let j = keys2.index_of(e);
            assert(0 <= j < keys2.len() && keys2[j] == e);
            let j1 = if j < i {
                j
            } else {
                j + 1
            };
            assert(keys2[j] == keys[j1]);
        }
        if keys.contains(e) && e != keys[i] {
            let j = keys.index_of(e);
            assert(0 <= j < keys.len() && keys[j] == e);
            let j2 = if j < i {
                j
            } else {
                j - 1
            };
            assert(keys2[j2] == e);
        }
    }
    assert forall|e: Entity| after.contains_key(e) implies #[trigger] after[e] == before.remove(
        keys[i],
    )[e] by {
        let j = keys2.index_of(e);
        assert(0 <= j < keys2.len() && keys2[j] == e);
        let j1 = if j < i {
            j
        } else {
            j + 1
        };
        assert(keys2[j] == keys[j1] && values2[j] == values[j1]);
        lemma_index_of_unique(keys, j1);
    }
    assert(after =~= before.remove(keys[i]));
}

/// A store of component values of one type, at most one per entity.
pub struct Storage<T> {
    keys: Vec<Entity>,
    values: Vec<T>,
}

impl<T> Storage<T> {
    /// Every entity occurs at most once, and each has its value.
    pub closed spec fn wf(&self) -> bool {
        &&& self.keys@.len() == self.values@.len()
        &&& self.keys@.no_duplicates()
    }

    /// The entities that hold a component, in the order of their first
    /// insertion.
    pub closed spec fn order(&self) -> Seq<Entity> {
        self.keys@
    }

    /// The component of each entity that has one. An entity without a key
    /// here lacks the component.
    pub closed spec fn view(&self) -> Map<Entity, T> {
        entries_map(self.keys@, self.values@)
    }

    /// The entities of `order` are the keys of the map, each once.
    pub proof fn lemma_order_is_domain(&self)
        requires
            self.wf(),
        ensures
            self.order().no_duplicates(),
            self.order().to_set() == self@.dom(),
            self@.dom().finite(),
            self@.dom().len() == self.order().len(),
            forall|e: Entity| self.order().contains(e) <==> #[trigger] self@.contains_key(e),
    {
        assert(self.keys@.to_set() =~= self@.dom());
        vstd::seq_lib::seq_to_set_is_finite(self.keys@);
        self.keys@.unique_seq_to_set();
    }

    /// An empty storage.
    pub fn new() -> (s: Storage<T>)
        ensures
            s.wf(),
            s@ == Map::<Entity, T>::empty(),
            s.order() == Seq::<Entity>::empty(),
    {
        let s = Storage { keys: Vec::new(), values: Vec::new() };
        assert(s@ =~= Map::<Entity, T>::empty());
        s
    }

    /// The number of entities that hold a component.
    pub fn len(&self) -> (n: usize)
        requires
            self.wf(),
        ensures
            n == self.order().len(),
            n == self@.dom().len(),
    {
        proof {
            self.lemma_order_is_domain();
        }
        self.keys.len()
    }

    /// Whether no entity holds a component.
    pub fn is_empty(&self) -> (b: bool)
        requires
            self.wf(),
        ensures
            b == (self@ == Map::<Entity, T>::empty()),
            b == (self.order().len() == 0),
    {
        proof {
            self.lemma_order_is_domain();
            if self.keys@.len() == 0 {
                assert(self@ =~= Map::<Entity, T>::empty());
            } else {
                assert(self.keys@.contains(self.keys@[0]));
                assert(self@.contains_key(self.keys@[0]));
            }
        }
        self.keys.len() == 0
    }

    /// Where in `order` the entity stands, if it holds a component.
    pub fn index_of(&self, entity: Entity) -> (r: Option<usize>)
        requires
            self.wf(),
        ensures
            match r {
                Some(i) => i < self.order().len() && self.order()[i as int] == entity
                    && self@.contains_key(entity),
                None => !self@.contains_key(entity) && !self.order().contains(entity),
            },
    {
        let mut i: usize = 0;
        while i < self.keys.len()
            invariant
                self.wf(),
                i <= self.keys@.len(),
                forall|j: int| 0 <= j < i ==> self.keys@[j] != entity,
            decreases self.keys@.len() - i,
        {
            if self.keys[i] == entity {
                proof {
                    lemma_index_of_unique(self.keys@, i as int);
                }
                return Some(i);
            }
            i += 1;
        }
        None
    }

    /// Whether the entity holds a component.
    pub fn contains(&self, entity: Entity) -> (b: bool)
        requires
            self.wf(),
        ensures
            b == self@.contains_key(entity),
    {
        self.index_of(entity).is_some()
    }

    /// The component of the entity, if it has one.
    pub fn get(&self, entity: Entity) -> (r: Option<&T>)
        requires
            self.wf(),
        ensures
            match r {
                Some(v) => self@.contains_key(entity) && *v == self@[entity],
                None => !self@.contains_key(entity),
            },
    {
        match self.index_of(entity) {
            Some(i) => {
                proof {
                    lemma_entries_map_index(self.keys@, self.values@, i as int);
                }
                Some(&self.values[i])
            },
            None => None,
        }
    }

    /// Inserts the component of the entity, or replaces the one it has. A
    /// new entity goes to the end of `order`; a known one keeps its place.
    pub fn set(&mut self, entity: Entity, value: T)
        requires
            old(self).wf(),
        ensures
            final(self).wf(),
            final(self)@ == old(self)@.insert(entity, value),
            final(self).order() == if old(self)@.contains_key(entity) {
                old(self).order()
            } else {
                old(self).order().push(entity)
            },
    {
        match self.index_of(entity) {
            Some(i) => {
                proof {
                    lemma_entries_map_update(self.keys@, self.values@, i as int, value);
                }
                self.values.set(i, value);
            },
            None => {
                proof {
                    lemma_entries_map_push(self.keys@, self.values@, entity, value);
                }
                self.keys.push(entity);
                self.values.push(value);
            },
        }
    }

    /// Takes the component of the entity out, if it has one, and returns it.
    /// The other entities keep their order.
    pub fn remove(&mut self, entity: Entity) -> (r: Option<T>)
        requires
            old(self).wf(),
        ensures
            final(self).wf(),
            final(self)@ == old(self)@.remove(entity),
            final(self).order() == without(old(self).order(), entity),
            r == if old(self)@.contains_key(entity) {
                Some(old(self)@[entity])
            } else {
                None
            },
    {
        match self.index_of(entity) {
            Some(i) => {
                proof {
                    lemma_entries_map_remove(self.keys@, self.values@, i as int);
                    lemma_entries_map_index(self.keys@, self.values@, i as int);
                    lemma_filter_out_at(self.keys@, i as int);
                }
                self.keys.remove(i);
                let value = self.values.remove(i);
                Some(value)
            },
            None => {
                proof {
                    lemma_filter_out_absent(self.keys@, entity);
                    assert(self@ =~= self@.remove(entity));
                }
                None
            },
        }
    }

    /// The entity at place `i` of `order`.
    pub fn entity_at(&self, i: usize) -> (e: Entity)
        requires
            self.wf(),
            i < self.order().len(),
        ensures
            e == self.order()[i as int],
            self@.contains_key(e),
    {
        proof {
            lemma_entries_map_index(self.keys@, self.values@, i as int);
        }
        self.keys[i]
    }

    /// The component of the entity at place `i` of `order`.
    pub fn value_at(&self, i: usize) -> (v: &T)
        requires
            self.wf(),
            i < self.order().len(),
        ensures
            self@.contains_key(self.order()[i as int]),
            *v == self@[self.order()[i as int]],
    {
        proof {
            lemma_entries_map_index(self.keys@, self.values@, i as int);
        }
        &self.values[i]
    }

    /// Replaces the component of the entity at place `i` of `order`.
    pub fn set_at(&mut self, i: usize, value: T)
        requires
            old(self).wf(),
            i < old(self).order().len(),
        ensures
            final(self).wf(),
            final(self).order() == old(self).order(),
            final(self)@ == old(self)@.insert(old(self).order()[i as int], value),
    {
        proof {
            lemma_entries_map_update(self.keys@, self.values@, i as int, value);
        }
        self.values.set(i, value);
    }

    /// All entries as they stand now, in `order`.
    pub fn iter(&self) -> (entries: Vec<(Entity, &T)>)
        requires
            self.wf(),
        ensures
            entries@.len() == self.order().len(),
            forall|i: int|
                0 <= i < entries@.len() ==> (#[trigger] entries@[i]).0 == self.order()[i]
                    && self@.contains_key(self.order()[i]) && *entries@[i].1
                    == self@[self.order()[i]],
    {
        let mut entries: Vec<(Entity, &T)> = Vec::new();
        let mut i: usize = 0;
        while i < self.keys.len()
            invariant
                self.wf(),
                i <= self.keys@.len(),
                entries@.len() == i,
                forall|j: int|
                    0 <= j < i ==> (#[trigger] entries@[j]).0 == self.keys@[j]
                        && self@.contains_key(self.keys@[j]) && *entries@[j].1
                        == self@[self.keys@[j]],
            decreases self.keys@.len() - i,
        {
            proof {
                lemma_entries_map_index(self.keys@, self.values@, i as int);
            }
            entries.push((self.keys[i], &self.values[i]));
            i += 1;
        }
        entries
    }

    /// The entities that hold a component, in `order`.
    pub fn entities(&self) -> (es: Vec<Entity>)
        requires
            self.wf(),
        ensures
            es@ == self.order(),
    {
        self.keys.clone()
    }
}

/// Filtering out the element at index `i` of a sequence without repeats
/// removes that index.
pub proof fn lemma_filter_out_at(s: Seq<Entity>, i: int)
    requires
        s.no_duplicates(),
        0 <= i < s.len(),
    ensures
        without(s, s[i]) == s.remove(i),
    decreases s.len(),
{
    reveal(Seq::filter);
    let target = s[i];
    let front = s.drop_last();
    if i == s.len() - 1 {
        assert(!front.contains(target)) by {
            if front.contains(target) {
                let j = front.index_of(target);
                assert(0 <= j < front.len() && front[j] == target);
                assert(s[j] == s[i]);
            }
        }
        lemma_filter_out_absent(front, target);
        assert(s.remove(i) =~= front);
    } else {
        assert(front[i] == target);
        lemma_filter_out_at(front, i);
        assert(s.last() != target);
        assert(s.remove(i) =~= front.remove(i).push(s.last()));
    }
}

/// Filtering out an element that does not occur changes nothing.
pub proof fn lemma_filter_out_absent(s: Seq<Entity>, entity: Entity)
    requires
        !s.contains(entity),
    ensures
        without(s, entity) == s,
    decreases s.len(),
{
    reveal(Seq::filter);
    if s.len() > 0 {
        let front = s.drop_last();
        assert(!front.contains(entity)) by {
            if front.contains(entity) {
                let j = front.index_of(entity);
                assert(0 <= j < front.len() && front[j] == entity);
                assert(s[j] == entity);
            }
        }
        lemma_filter_out_absent(front, entity);
        assert(s.last() != entity) by {
            if s.last() == entity {
                assert(s[s.len() - 1] == entity);
            }
        }
        assert(front.push(s.last()) =~= s);
    }
}

/// What is left after filtering an entity out: every other element of the
/// sequence and not the entity. A sequence without repeats stays so.
pub proof fn lemma_without_members(s: Seq<Entity>, entity: Entity)
    ensures
        !without(s, entity).contains(entity),
        forall|x: Entity| #[trigger] without(s, entity).contains(x) <==> s.contains(x) && x != entity,
        s.no_duplicates() ==> without(s, entity).no_duplicates(),
    decreases s.len(),
{
    reveal(Seq::filter);
    let rest = without(s, entity);
    if s.len() > 0 {
        let front = s.drop_last();
        let last = s.last();
        let inner = without(front, entity);
        lemma_without_members(front, entity);
        assert forall|x: Entity| #[trigger] rest.contains(x) <==> s.contains(x) && x != entity by {
            if rest.contains(x) {
                let j = rest.index_of(x);
                assert(0 <= j < rest.len() && rest[j] == x);
                if j < inner.len() {
                    assert(inner[j] == x);
                    assert(inner.contains(x));
                    let k = front.index_of(x);
                    assert(0 <= k < front.len() && front[k] == x);
                    assert(s[k] == x);
                } else {
                    assert(x == last);
                    assert(s[s.len() - 1] == x);
                }
            }
            if s.contains(x) && x != entity {
                let k = s.index_of(x);
                assert(0 <= k < s.len() && s[k] == x);
                if k < front.len() {
                    assert(front[k] == x);
                    assert(front.contains(x));
                    assert(inner.contains(x));
                    let j = inner.index_of(x);
                    assert(0 <= j < inner.len() && inner[j] == x);
                    assert(rest[j] == x);
                } else {
                    assert(rest[rest.len() - 1] == x);
                }
            }
        }
        if s.no_duplicates() {
            assert(front.no_duplicates());
            assert(!front.contains(last)) by {
                if front.contains(last) {
                    let j = front.index_of(last);
                    assert(0 <= j < front.len() && front[j] == last);
                    assert(s[j] == s[s.len() - 1]);
                }
            }
            assert forall|i: int, j: int|
                0 <= i < rest.len() && 0 <= j < rest.len() && i != j implies rest[i] != rest[j] by {
                if i < inner.len() && j < inner.len() {
                    assert(inner[i] != inner[j]);
                } else if i < inner.len() {
                    assert(inner.contains(inner[i]));
                } else {
                    assert(inner.contains(inner[j]));
                }
            }
        }
    }
}

} // verus!
