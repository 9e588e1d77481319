//! Direct-indexed maps: the key's small integer index is the array slot.

use vstd::prelude::*;

use core::marker::PhantomData;

verus! {

/// A key usable in a sparse map: convertible to and from its slot index.
pub trait SparseMapKey: Sized {
    spec fn spec_index(&self) -> int;

    fn index(&self) -> (i: usize)
        ensures
            i as int == self.spec_index(),
    ;

    fn from_index(index: usize) -> (k: Self)
        ensures
            k.spec_index() == index as int,
    ;
}

impl SparseMapKey for usize {
    open spec fn spec_index(&self) -> int {
        *self as int
    }

    fn index(&self) -> (i: usize)
        ensures
            i as int == self.spec_index(),
    {
        *self
    }

    fn from_index(index: usize) -> (k: Self)
        ensures
            k.spec_index() == index as int,
    {
        index
    }
}

/// How many slots of the backing array are occupied.
pub open spec fn count_some<V>(s: Seq<Option<V>>) -> nat
    decreases s.len(),
{
    if s.len() == 0 {
        0
    } else {
        count_some(s.drop_last()) + (if s.last() is Some {
            1nat
        } else {
            0nat
        })
    }
}

pub proof fn lemma_count_some_le<V>(s: Seq<Option<V>>)
    ensures
        count_some(s) <= s.len(),
    decreases s.len(),
{
    if s.len() > 0 {
        lemma_count_some_le(s.drop_last());
    }
}

pub proof fn lemma_count_some_push<V>(s: Seq<Option<V>>, x: Option<V>)
    ensures
        count_some(s.push(x)) == count_some(s) + (if x is Some {
            1nat
        } else {
            0nat
        }),
{
    assert(s.push(x).drop_last() =~= s);
}

pub proof fn lemma_count_some_update<V>(s: Seq<Option<V>>, i: int, x: Option<V>)
    requires
        0 <= i < s.len(),
    ensures
        count_some(s.update(i, x)) + (if s[i] is Some {
            1nat
        } else {
            0nat
        }) == count_some(s) + (if x is Some {
            1nat
        } else {
            0nat
        }),
    decreases s.len(),
{
    let t = s.update(i, x);
    if i == s.len() - 1 {
        assert(t.drop_last() =~= s.drop_last());
    } else {
        assert(t.drop_last() =~= s.drop_last().update(i, x));
        assert(t.last() == s.last());
        lemma_count_some_update(s.drop_last(), i, x);
    }
}

/// The slot indexes that hold a value, in ascending order.
pub open spec fn key_indexes<V>(s: Seq<Option<V>>) -> Seq<int>
    decreases s.len(),
{
    if s.len() == 0 {
        Seq::empty()
    } else {
        let prefix = key_indexes(s.drop_last());
        if s.last() is Some {
            prefix.push(s.len() - 1)
        } else {
            prefix
        }
    }
}

pub proof fn lemma_key_indexes_bounds<V>(s: Seq<Option<V>>)
    ensures
        forall|n: int|
            0 <= n < key_indexes(s).len() ==> {
                &&& 0 <= #[trigger] key_indexes(s)[n] < s.len()
                &&& s[key_indexes(s)[n]] is Some
            },
        forall|n1: int, n2: int|
            0 <= n1 < n2 < key_indexes(s).len() ==> key_indexes(s)[n1] < key_indexes(s)[n2],
        forall|i: int| 0 <= i < s.len() && s[i] is Some ==> #[trigger] key_indexes(s).contains(i),
        key_indexes(s).len() == count_some(s),
    decreases s.len(),
{
    if s.len() > 0 {
        lemma_key_indexes_bounds(s.drop_last());
        assert forall|i: int| 0 <= i < s.len() && s[i] is Some implies #[trigger] key_indexes(
            s,
        ).contains(i) by {
            if i == s.len() - 1 {
                assert(key_indexes(s).last() == i);
            } else {
                assert(s.drop_last()[i] is Some);
                assert(key_indexes(s.drop_last()).contains(i));
                let n = choose|n: int|
                    0 <= n < key_indexes(s.drop_last()).len() && key_indexes(s.drop_last())[n]
                        == i;
                assert(key_indexes(s)[n] == i);
            }
        }
    }
}

/// A growable map from small integer keys to values, stored directly at the
/// key's index.  `len` tracks how many slots are occupied.
#[derive(Debug)]
pub struct SparseMap<K, V> {
    pub values: Vec<Option<V>>,
    pub len: usize,
    pub _key: PhantomData<K>,
}

impl<K, V> SparseMap<K, V> {
    /// The mathematical contents: present slot indexes mapped to values.
    pub open spec fn spec_map(&self) -> Map<int, V> {
        Map::new(
            |i: int| 0 <= i < self.values@.len() && self.values@[i] is Some,
            |i: int| self.values@[i]->Some_0,
        )
    }

    pub open spec fn spec_contains(&self, i: int) -> bool {
        0 <= i < self.values@.len() && self.values@[i] is Some
    }

    pub open spec fn wf(&self) -> bool {
        self.len == count_some(self.values@)
    }

    pub fn new() -> (r: Self)
        ensures
            r.wf(),
            r.values@.len() == 0,
            r.len == 0,
    {
        SparseMap { values: Vec::new(), len: 0, _key: PhantomData }
    }

    pub fn with_capacity(capacity: usize) -> (r: Self)
        ensures
            r.wf(),
            r.values@.len() == 0,
            r.len == 0,
    {
        SparseMap { values: Vec::with_capacity(capacity), len: 0, _key: PhantomData }
    }

    pub fn clear(&mut self)
        ensures
            final(self).wf(),
            final(self).values@.len() == 0,
            final(self).len == 0,
    {
        self.values.clear();
        self.len = 0;
    }

    pub fn reserve(&mut self, additional: usize)
        ensures
            final(self).values@ == old(self).values@,
            final(self).len == old(self).len,
    {
        self.values.reserve(additional);
    }

    pub fn len(&self) -> (n: usize)
        ensures
            n == self.len,
    {
        self.len
    }

    pub fn is_empty(&self) -> (b: bool)
        ensures
            b == (self.len == 0),
    {
        self.len == 0
    }
}

impl<K: SparseMapKey, V> SparseMap<K, V> {
    pub fn contains_key(&self, key: &K) -> (b: bool)
        ensures
            b == self.spec_contains(key.spec_index()),
    {
        let index = key.index();
        index < self.values.len() && self.values[index].is_some()
    }

    pub fn get(&self, key: &K) -> (r: Option<&V>)
        ensures
            r is Some <==> self.spec_contains(key.spec_index()),
            r is Some ==> *r->Some_0 == self.values@[key.spec_index()]->Some_0,
    {
        let index = key.index();
        if index < self.values.len() {
            self.values[index].as_ref()
        } else {
            None
        }
    }

    pub fn get_mut(&mut self, key: &K) -> (r: Option<&mut V>)
        ensures
            r is Some <==> old(self).spec_contains(key.spec_index()),
            r is Some ==> {
                &&& *r->Some_0 == old(self).values@[key.spec_index()]->Some_0
                &&& final(self).values@ == old(self).values@.update(
                    key.spec_index(),
                    Some(*final(r->Some_0)),
                )
                &&& final(self).len == old(self).len
            },
            r is None ==> *final(self) == *old(self),
            old(self).wf() ==> final(self).wf(),
    {
        let index = key.index();
        proof {
            if old(self).spec_contains(key.spec_index()) {
                assert forall|x: V|
                    count_some(#[trigger] old(self).values@.update(key.spec_index(), Some(x)))
                        == count_some(old(self).values@) by {
                    lemma_count_some_update(old(self).values@, key.spec_index(), Some(x));
                }
            }
        }
        if index < self.values.len() && self.values[index].is_some() {
            match &mut self.values[index] {
                Some(v) => Some(v),
                None => None,
            }
        } else {
            None
        }
    }

    /// Put a value at the key's slot, growing the backing array as needed;
    /// hands back the value previously stored there, if any.
    pub fn insert(&mut self, key: &K, value: V) -> (r: Option<V>)
        requires
            old(self).wf(),
        ensures
            final(self).wf(),
            r is Some <==> old(self).spec_contains(key.spec_index()),
            r is Some ==> {
                &&& r->Some_0 == old(self).values@[key.spec_index()]->Some_0
                &&& final(self).len == old(self).len
            },
            r is None ==> final(self).len == old(self).len + 1,
            final(self).spec_contains(key.spec_index()),
            final(self).values@[key.spec_index()] == Some(value),
            forall|i: int|
                0 <= i < final(self).values@.len() && i != key.spec_index()
                    ==> #[trigger] final(self).values@[i] == (if i < old(self).values@.len() {
                    old(self).values@[i]
                } else {
                    Option::<V>::None
                }),
            final(self).values@.len() == (if key.spec_index() < old(self).values@.len() {
                old(self).values@.len() as int
            } else {
                key.spec_index() + 1
            }),
    {
        let index = key.index();
        while self.values.len() <= index
            invariant
                self.len == old(self).len,
                old(self).values@.len() <= self.values@.len(),
                self.values@.take(old(self).values@.len() as int) == old(self).values@,
                old(self).values@.len() > index ==> self.values@ == old(self).values@,
                old(self).values@.len() <= index ==> self.values@.len() <= index + 1,
                forall|i: int|
                    old(self).values@.len() <= i < self.values@.len()
                        ==> #[trigger] self.values@[i] is None,
                count_some(self.values@) == count_some(old(self).values@),
            decreases index + 1 - self.values@.len(),
        {
            proof {
                lemma_count_some_push(self.values@, Option::<V>::None);
                assert(self.values@.push(Option::<V>::None).take(old(self).values@.len() as int)
                    =~= self.values@.take(old(self).values@.len() as int));
            }
            self.values.push(None);
        }
        let ghost pre = self.values@;
        let mut slot: Option<V> = Some(value);
        core::mem::swap(&mut self.values[index], &mut slot);
        proof {
            assert(self.values@ == pre.update(index as int, Some(value)));
            assert(slot == pre[index as int]);
            lemma_count_some_update(pre, index as int, Some(value));
            assert forall|i: int|
                0 <= i < self.values@.len() && i != key.spec_index() implies #[trigger] self
                .values@[i] == (if i < old(self).values@.len() {
                old(self).values@[i]
            } else {
                Option::<V>::None
            }) by {
                if i < old(self).values@.len() {
                    assert(old(self).values@[i] == self.values@.take(
                        old(self).values@.len() as int,
                    )[i]);
                }
            }
        }
        if slot.is_none() {
            proof {
                lemma_count_some_le(self.values@);
            }
            self.len = self.len + 1;
        }
        slot
    }

    /// Empty the key's slot, handing back what was stored there.
    pub fn remove(&mut self, key: &K) -> (r: Option<V>)
        requires
            old(self).wf(),
        ensures
            final(self).wf(),
            r is Some <==> old(self).spec_contains(key.spec_index()),
            r is Some ==> {
                &&& r->Some_0 == old(self).values@[key.spec_index()]->Some_0
                &&& final(self).len == old(self).len - 1
                &&& final(self).values@ == old(self).values@.update(
                    key.spec_index(),
                    Option::<V>::None,
                )
            },
            r is None ==> *final(self) == *old(self),
    {
        let index = key.index();
        if index < self.values.len() && self.values[index].is_some() {
            let r = self.values[index].take();
            proof {
                lemma_count_some_update(old(self).values@, index as int, Option::<V>::None);
            }
            self.len = self.len - 1;
            r
        } else {
            None
        }
    }

    /// Snapshot the keys of the occupied slots, in ascending index order.
    pub fn keys(&self) -> (r: Keys<K, V>)
        ensures
            r.items@.map_values(|k: K| k.spec_index()) == key_indexes(self.values@),
            r.pos == 0,
    {
        Keys { items: keys_of(&self.values), pos: 0, _value: PhantomData }
    }
}

/// Collect the keys of the occupied slots of a backing array.
fn keys_of<K: SparseMapKey, V>(values: &Vec<Option<V>>) -> (r: Vec<K>)
    ensures
        r@.map_values(|k: K| k.spec_index()) == key_indexes(values@),
{
    let mut r: Vec<K> = Vec::new();
    let n = values.len();
    let mut i: usize = 0;
    while i < n
        invariant
            n == values@.len(),
            i <= n,
            r@.map_values(|k: K| k.spec_index()) == key_indexes(values@.take(i as int)),
        decreases n - i,
    {
        proof {
            assert(values@.take(i as int + 1).drop_last() =~= values@.take(i as int));
            assert(values@.take(i as int + 1).last() == values@[i as int]);
        }
        if values[i].is_some() {
            let k = K::from_index(i);
            r.push(k);
            proof {
                assert(r@.map_values(|k: K| k.spec_index()) =~= key_indexes(
                    values@.take(i as int + 1),
                ));
            }
        } else {
            proof {
                assert(key_indexes(values@.take(i as int + 1)) == key_indexes(
                    values@.take(i as int),
                ));
            }
        }
        i = i + 1;
    }
    proof {
        assert(values@.take(n as int) =~= values@);
    }
    r
}

/// A snapshot iterator over a sparse map's keys.
#[derive(Debug)]
pub struct Keys<K, V> {
    pub items: Vec<K>,
    pub pos: usize,
    pub _value: PhantomData<V>,
}

impl<K: Copy, V> Keys<K, V> {
    pub fn next(&mut self) -> (r: Option<K>)
        ensures
            old(self).pos < old(self).items@.len() ==> {
                &&& r == Some(old(self).items@[old(self).pos as int])
                &&& final(self).pos == old(self).pos + 1
            },
            old(self).pos >= old(self).items@.len() ==> r is None && final(self).pos == old(self).pos,
            final(self).items@ == old(self).items@,
    {
        if self.pos < self.items.len() {
            let item = self.items[self.pos];
            self.pos = self.pos + 1;
            Some(item)
        } else {
            None
        }
    }
}

/// A frozen sparse map: the same direct-indexed layout, without growth.
#[derive(Debug)]
pub struct ImmutableSparseMap<K, V> {
    pub values: Vec<Option<V>>,
    pub len: usize,
    pub _key: PhantomData<K>,
}

impl<K, V> ImmutableSparseMap<K, V> {
    pub open spec fn spec_map(&self) -> Map<int, V> {
        Map::new(
            |i: int| 0 <= i < self.values@.len() && self.values@[i] is Some,
            |i: int| self.values@[i]->Some_0,
        )
    }

    pub open spec fn spec_contains(&self, i: int) -> bool {
        0 <= i < self.values@.len() && self.values@[i] is Some
    }

    pub open spec fn wf(&self) -> bool {
        self.len == count_some(self.values@)
    }

    pub fn new() -> (r: Self)
        ensures
            r.wf(),
            r.values@.len() == 0,
            r.len == 0,
    {
        ImmutableSparseMap { values: Vec::new(), len: 0, _key: PhantomData }
    }

    pub fn len(&self) -> (n: usize)
        ensures
            n == self.len,
    {
        self.len
    }

    pub fn is_empty(&self) -> (b: bool)
        ensures
            b == (self.len == 0),
    {
        self.len == 0
    }

    /// Freeze a sparse map.
    pub fn from_sparse_map(map: SparseMap<K, V>) -> (r: Self)
        ensures
            r.values@ == map.values@,
            r.len == map.len,
    {
        ImmutableSparseMap { values: map.values, len: map.len, _key: PhantomData }
    }

    /// Thaw into a growable sparse map.
    pub fn into_sparse_map(self) -> (r: SparseMap<K, V>)
        ensures
            r.values@ == self.values@,
            r.len == self.len,
    {
        SparseMap { values: self.values, len: self.len, _key: PhantomData }
    }
}

impl<K: SparseMapKey, V> ImmutableSparseMap<K, V> {
    pub fn contains_key(&self, key: &K) -> (b: bool)
        ensures
            b == self.spec_contains(key.spec_index()),
    {
        let index = key.index();
        index < self.values.len() && self.values[index].is_some()
    }

    pub fn get(&self, key: &K) -> (r: Option<&V>)
        ensures
            r is Some <==> self.spec_contains(key.spec_index()),
            r is Some ==> *r->Some_0 == self.values@[key.spec_index()]->Some_0,
    {
        let index = key.index();
        if index < self.values.len() {
            self.values[index].as_ref()
        } else {
            None
        }
    }

    pub fn get_mut(&mut self, key: &K) -> (r: Option<&mut V>)
        ensures
            r is Some <==> old(self).spec_contains(key.spec_index()),
            r is Some ==> {
                &&& *r->Some_0 == old(self).values@[key.spec_index()]->Some_0
                &&& final(self).values@ == old(self).values@.update(
                    key.spec_index(),
                    Some(*final(r->Some_0)),
                )
                &&& final(self).len == old(self).len
            },
            r is None ==> *final(self) == *old(self),
            old(self).wf() ==> final(self).wf(),
    {
        let index = key.index();
        proof {
            if old(self).spec_contains(key.spec_index()) {
                assert forall|x: V|
                    count_some(#[trigger] old(self).values@.update(key.spec_index(), Some(x)))
                        == count_some(old(self).values@) by {
                    lemma_count_some_update(old(self).values@, key.spec_index(), Some(x));
                }
            }
        }
        if index < self.values.len() && self.values[index].is_some() {
            match &mut self.values[index] {
                Some(v) => Some(v),
                None => None,
            }
        } else {
            None
        }
    }

    /// Snapshot the keys of the occupied slots, in ascending index order.
    pub fn keys(&self) -> (r: Keys<K, V>)
        ensures
            r.items@.map_values(|k: K| k.spec_index()) == key_indexes(self.values@),
            r.pos == 0,
    {
        Keys { items: keys_of(&self.values), pos: 0, _value: PhantomData }
    }
}

} // verus!
