//! Bundles: groups of components inserted, removed or taken together.

use vstd::prelude::*;

use crate::component::{ComponentDescriptor, ComponentId, Components};
use crate::util::sparse_map::SparseMapKey;
use crate::util::type_id_map::{TypeIdMap, TypeKey};
use crate::util::{
    adjacent_dedup, has_adjacent_duplicate, lemma_adjacent_dedup_counts, lemma_contains_transfer,
    lemma_count_two, lemma_multiset_distinct_transfer, lemma_range_member, lemma_range_transfer,
    lemma_sorted_distinct, partition_dedup, sort_by_index, strictly_sorted_by_index,
};

verus! {

/// The stable id a bundle type receives on first registration.
#[derive(Clone, Copy, Debug, PartialEq, Eq, Structural, Hash)]
pub struct BundleId(pub usize);

impl SparseMapKey for BundleId {
    open spec fn spec_index(&self) -> int {
        self.0 as int
    }

    fn index(&self) -> (i: usize)
        ensures
            i as int == self.spec_index(),
    {
        self.0
    }

    fn from_index(index: usize) -> (k: Self)
        ensures
            k.spec_index() == index as int,
    {
        BundleId(index)
    }
}

/// A registered bundle: its id, its name, and the sorted list of the distinct
/// component ids it consists of.
#[derive(Debug)]
pub struct BundleInfo {
    pub id: BundleId,
    pub type_key: TypeKey,
    pub name: String,
    pub component_ids: Vec<ComponentId>,
}

impl BundleInfo {
    /// The bundle declares the component with this id.
    pub open spec fn spec_has_component(&self, cid: int) -> bool {
        exists|m: int|
            0 <= m < self.component_ids@.len() && (#[trigger] self.component_ids@[m]).0 as int
                == cid
    }

    pub fn id(&self) -> (r: BundleId)
        ensures
            r == self.id,
    {
        self.id
    }

    pub fn name(&self) -> (r: &String)
        ensures
            r == &self.name,
    {
        &self.name
    }

    pub fn component_ids(&self) -> (r: &Vec<ComponentId>)
        ensures
            r == &self.component_ids,
    {
        &self.component_ids
    }

    pub fn is_empty(&self) -> (b: bool)
        ensures
            b == (self.component_ids@.len() == 0),
    {
        self.component_ids.len() == 0
    }
}

/// A bundle value: the identity and name of its static type, and one value
/// for each component it declares, in declared order.
#[derive(Debug)]
pub struct DynamicBundle<V> {
    pub type_key: TypeKey,
    pub name: String,
    pub components: Vec<(ComponentDescriptor, V)>,
}

impl<V> DynamicBundle<V> {
    /// The declared component descriptors, without the values.
    pub open spec fn spec_descriptors(&self) -> Seq<ComponentDescriptor> {
        self.components@.map_values(|p: (ComponentDescriptor, V)| p.0)
    }

    pub fn num_components(&self) -> (n: usize)
        ensures
            n == self.components@.len(),
    {
        self.components.len()
    }
}

/// A bundle type without values: what `remove` and `take` work from.
#[derive(Debug)]
pub struct Bundle {
    pub type_key: TypeKey,
    pub name: String,
    pub components: Vec<ComponentDescriptor>,
}

impl Bundle {
    pub fn num_components(&self) -> (n: usize)
        ensures
            n == self.components@.len(),
    {
        self.components.len()
    }
}

/// The diagnostic of a rejected bundle registration: the bundle names some
/// component more than once.
#[derive(Debug)]
pub struct DuplicateComponentsError {
    pub bundle_name: String,
    pub component_names: Vec<String>,
}

/// The name list holds the registered name of the given component.
pub open spec fn name_listed(names: Seq<String>, c: Components, id: ComponentId) -> bool {
    exists|m: int|
        0 <= m < names.len() && (#[trigger] names[m])@ == c.components@[
            id.0 as int
        ].descriptor.name@
}

/// No two descriptors in the sequence stand for the same component type.
pub open spec fn distinct_type_keys(s: Seq<ComponentDescriptor>) -> bool {
    forall|n1: int, n2: int|
        0 <= n1 < n2 < s.len() ==> (#[trigger] s[n1]).type_key != (#[trigger] s[n2]).type_key
}

/// The ids that a descriptor sequence resolves to in a component registry.
pub open spec fn ids_of(s: Seq<ComponentDescriptor>, c: Components) -> Seq<ComponentId> {
    s.map_values(|d: ComponentDescriptor| ComponentId(c.spec_id_of(d.type_key) as usize))
}

/// The bundle registry: assigns a stable, monotonically increasing id to
/// every distinct bundle type it is shown, and caches the bundle's sorted
/// component-id list.
#[derive(Debug)]
pub struct Bundles {
    pub bundle_infos: Vec<BundleInfo>,
    pub by_type_id: TypeIdMap<BundleId>,
}

impl Bundles {
    pub open spec fn spec_registered(&self, key: TypeKey) -> bool {
        self.by_type_id.spec_contains_key(key)
    }

    pub open spec fn spec_id_of(&self, key: TypeKey) -> int {
        self.by_type_id.spec_get(key).spec_index()
    }

    pub open spec fn spec_info(&self, id: int) -> BundleInfo {
        self.bundle_infos@[id]
    }

    pub open spec fn wf(&self) -> bool {
        &&& self.by_type_id.wf()
        &&& self.by_type_id.items@.len() == self.bundle_infos@.len()
        &&& forall|i: int|
            0 <= i < self.bundle_infos@.len() ==> (#[trigger] self.bundle_infos@[i]).id.0 == i
        &&& forall|i: int|
            0 <= i < self.bundle_infos@.len() ==> strictly_sorted_by_index(
                (#[trigger] self.bundle_infos@[i]).component_ids@,
            )
        &&& forall|i: int|
            0 <= i < self.bundle_infos@.len() ==> #[trigger] self.by_type_id.items@[i] == (
            self.bundle_infos@[i].type_key,
            self.bundle_infos@[i].id,
            )
    }

    /// Every cached component id points into a registry of `n` components.
    pub open spec fn in_range(&self, n: int) -> bool {
        forall|i: int, m: int|
            0 <= i < self.bundle_infos@.len() && 0 <= m < self.bundle_infos@[i].component_ids@.len()
                ==> 0 <= (#[trigger] self.bundle_infos@[i].component_ids@[m]).0 < n
    }

    pub fn new() -> (r: Self)
        ensures
            r.wf(),
            r.bundle_infos@.len() == 0,
            forall|n: int| r.in_range(n),
    {
        Bundles { bundle_infos: Vec::new(), by_type_id: TypeIdMap::new() }
    }

    /// Look up a bundle's record by its type identity.
    pub fn get(&self, type_key: TypeKey) -> (r: Option<&BundleInfo>)
        requires
            self.wf(),
        ensures
            r is Some <==> self.spec_registered(type_key),
            r is Some ==> *r->Some_0 == self.spec_info(self.spec_id_of(type_key)),
    {
        let id = self.by_type_id.get(type_key);
        match id {
            Some(id) => {
                let id = *id;
                proof {
                    let w = self.by_type_id.spec_index_of(type_key);
                    assert(self.by_type_id.items@[w].1 == self.bundle_infos@[w].id);
                }
                Some(&self.bundle_infos[id.0])
            }
            None => None,
        }
    }

    /// Resolve a statically typed bundle's record, registering the bundle
    /// (and any unseen component types) on first sight.
    ///
    /// Fails exactly when the bundle is new and declares some component type
    /// more than once; the diagnostic names the duplicated components.
    pub fn get_mut_or_insert_static(
        &mut self,
        bundle: &Bundle,
        components: &mut Components,
    ) -> (r: Result<BundleId, DuplicateComponentsError>)
        requires
            old(self).wf(),
            old(components).wf(),
            old(self).in_range(old(components).components@.len() as int),
        ensures
            registration_post(
                *old(self),
                *final(self),
                *old(components),
                *final(components),
                bundle.type_key,
                bundle.name@,
                bundle.components@,
                r,
            ),
    {
        self.get_mut_or_insert_inner(bundle.type_key, &bundle.name, &bundle.components, components)
    }

    /// Resolve a bundle value's record, registering the bundle (and any
    /// unseen component types) on first sight.
    ///
    /// Fails exactly when the bundle is new and declares some component type
    /// more than once; the diagnostic names the duplicated components.
    pub fn get_mut_or_insert_dynamic<V>(
        &mut self,
        bundle: &DynamicBundle<V>,
        components: &mut Components,
    ) -> (r: Result<BundleId, DuplicateComponentsError>)
        requires
            old(self).wf(),
            old(components).wf(),
            old(self).in_range(old(components).components@.len() as int),
        ensures
            registration_post(
                *old(self),
                *final(self),
                *old(components),
                *final(components),
                bundle.type_key,
                bundle.name@,
                bundle.spec_descriptors(),
                r,
            ),
    {
        let mut descriptors: Vec<ComponentDescriptor> = Vec::new();
        let n = bundle.components.len();
        let mut i: usize = 0;
        while i < n
            invariant
                n == bundle.components@.len(),
                i <= n,
                descriptors@ == bundle.spec_descriptors().take(i as int),
            decreases n - i,
        {
            descriptors.push(bundle.components[i].0.duplicate());
            proof {
                assert(descriptors@ =~= bundle.spec_descriptors().take(i as int + 1));
            }
            i = i + 1;
        }
        proof {
            assert(bundle.spec_descriptors().take(n as int) =~= bundle.spec_descriptors());
        }
        self.get_mut_or_insert_inner(bundle.type_key, &bundle.name, &descriptors, components)
    }

    #[verifier::rlimit(100)]
    #[verifier::spinoff_prover]
    fn get_mut_or_insert_inner(
        &mut self,
        type_key: TypeKey,
        name: &String,
        descriptors: &Vec<ComponentDescriptor>,
        components: &mut Components,
    ) -> (r: Result<BundleId, DuplicateComponentsError>)
        requires
            old(self).wf(),
            old(components).wf(),
            old(self).in_range(old(components).components@.len() as int),
        ensures
            registration_post(
                *old(self),
                *final(self),
                *old(components),
                *final(components),
                type_key,
                name@,
                descriptors@,
                r,
            ),
    {
        let existing = self.by_type_id.get(type_key);
        if let Some(id) = existing {
            let id = *id;
            proof {
                let w = self.by_type_id.spec_index_of(type_key);
                assert(self.by_type_id.items@[w].1 == self.bundle_infos@[w].id);
            }
            return Ok(id);
        }
        // register every declared component, collecting the ids in declared
        // order
        let mut ids: Vec<ComponentId> = Vec::new();
        let n = descriptors.len();
        let mut i: usize = 0;
        while i < n
            invariant
                n == descriptors@.len(),
                i <= n,
                ids@.len() == i as int,
                components.wf(),
                components.components@.len() >= old(components).components@.len(),
                forall|m: int|
                    0 <= m < old(components).components@.len()
                        ==> #[trigger] components.components@[m] == old(components).components@[m],
                forall|k: TypeKey|
                    old(components).spec_registered(k) ==> (components.spec_registered(k)
                        && components.spec_id_of(k) == old(components).spec_id_of(k)),
                forall|m: int|
                    0 <= m < i as int ==> {
                        &&& components.spec_registered((#[trigger] descriptors@[m]).type_key)
                        &&& ids@[m].0 as int == components.spec_id_of(descriptors@[m].type_key)
                    },
            decreases n - i,
        {
            let id = components.register(descriptors[i].duplicate());
            ids.push(id);
            i = i + 1;
        }
        proof {
            assert(ids@ =~= ids_of(descriptors@, *components));
        }
        let ghost ids0 = ids@;
        let ghost post_components = *components;

        // distinct declared types resolve to distinct ids, and conversely
        proof {
            assert forall|n1: int, n2: int|
                0 <= n1 < n2 < descriptors@.len() implies ((ids0[n1] == ids0[n2])
                <==> (descriptors@[n1].type_key == descriptors@[n2].type_key)) by {
                components.lemma_id_of(descriptors@[n1].type_key);
                components.lemma_id_of(descriptors@[n2].type_key);
            }
        }

        sort_by_index(&mut ids);
        let ghost sorted = ids@;
        let w = partition_dedup(&mut ids);
        proof {
            lemma_sorted_distinct::<ComponentId>(sorted);
            lemma_ids_distinct_iff(ids0, sorted);
        }
        proof {
            assert forall|m: int| 0 <= m < ids0.len() implies 0 <= (#[trigger] ids0[m]).0
                < components.components@.len() by {
                components.lemma_id_of(descriptors@[m].type_key);
            }
            lemma_range_transfer(ids0, sorted, components.components@.len() as int);
            assert forall|m: int| 0 <= m < ids@.len() implies 0 <= (#[trigger] ids@[m]).0
                < components.components@.len() by {
                lemma_range_member(sorted, ids@[m], components.components@.len() as int);
            }
        }
        if w < ids.len() {
            // the bundle declares some component more than once: collect the
            // names of the duplicated components, each once
            proof {
                assert(!distinct_type_keys(descriptors@)) by {
                    assert(has_adjacent_duplicate(sorted));
                    assert(!sorted.no_duplicates());
                    if ids0.no_duplicates() {
                        lemma_multiset_distinct_transfer(ids0, sorted);
                    }
                    let (n1, n2) = choose|n1: int, n2: int|
                        0 <= n1 < n2 < ids0.len() && ids0[n1] == ids0[n2];
                    assert(descriptors@[n1].type_key == descriptors@[n2].type_key);
                }
            }
            let ghost bound = components.components@.len() as int;
            let ghost ids_post = ids@;
            let mut dups: Vec<ComponentId> = Vec::new();
            let len = ids.len();
            let mut k: usize = w;
            while k < len
                invariant
                    len == ids@.len(),
                    ids@ == ids_post,
                    w <= k <= len,
                    dups@.len() == k - w,
                    forall|m: int|
                        0 <= m < ids@.len() ==> 0 <= (#[trigger] ids@[m]).0 < bound,
                    forall|m: int|
                        0 <= m < dups@.len() ==> #[trigger] dups@[m] == ids_post[w + m],
                decreases len - k,
            {
                let id = ids[k];
                dups.push(id);
                k = k + 1;
            }
            let ghost dups0 = dups@;
            proof {
                assert forall|m: int| 0 <= m < dups0.len() implies 0 <= (
                #[trigger] dups0[m]).0 < bound by {
                    assert(dups0[m] == ids_post[w + m]);
                }
            }
            sort_by_index(&mut dups);
            proof {
                lemma_range_transfer(dups0, dups@, bound);
            }
            let mut names: Vec<String> = Vec::new();
            let dn = dups.len();
            let mut k2: usize = 0;
            while k2 < dn
                invariant
                    dn == dups@.len(),
                    dn > 0,
                    k2 <= dn,
                    post_components == *components,
                    components.wf(),
                    k2 > 0 ==> names@.len() > 0,
                    forall|m: int| 0 <= m < dups@.len() ==> 0 <= (#[trigger] dups@[m]).0 < bound,
                    bound == components.components@.len() as int,
                    forall|m2: int|
                        0 <= m2 < k2 as int ==> name_listed(
                            names@,
                            *components,
                            #[trigger] dups@[m2],
                        ),
                decreases dn - k2,
            {
                let ghost names_before = names@;
                if k2 == 0 || dups[k2].0 != dups[k2 - 1].0 {
                    let id = dups[k2];
                    let info = components.get_component_info(id);
                    names.push(info.descriptor.name.clone());
                    proof {
                        assert forall|m2: int| 0 <= m2 < k2 as int + 1 implies name_listed(
                            names@,
                            *components,
                            #[trigger] dups@[m2],
                        ) by {
                            if m2 == k2 as int {
                                assert(names@[names@.len() - 1]@ == components.components@[
                                    dups@[m2].0 as int
                                ].descriptor.name@);
                            } else {
                                assert(name_listed(names_before, *components, dups@[m2]));
                                let m = choose|m: int|
                                    0 <= m < names_before.len() && (#[trigger] names_before[m])@
                                        == components.components@[
                                        dups@[m2].0 as int
                                    ].descriptor.name@;
                                assert(names@[m]@ == components.components@[
                                    dups@[m2].0 as int
                                ].descriptor.name@);
                            }
                        }
                    }
                } else {
                    proof {
                        assert forall|m2: int| 0 <= m2 < k2 as int + 1 implies name_listed(
                            names@,
                            *components,
                            #[trigger] dups@[m2],
                        ) by {
                            if m2 == k2 as int {
                                assert(name_listed(names@, *components, dups@[k2 as int - 1]));
                                let m = choose|m: int|
                                    0 <= m < names@.len() && (#[trigger] names@[m])@
                                        == components.components@[
                                        dups@[k2 as int - 1].0 as int
                                    ].descriptor.name@;
                                assert(names@[m]@ == components.components@[
                                    dups@[m2].0 as int
                                ].descriptor.name@);
                            }
                        }
                    }
                }
                k2 = k2 + 1;
            }
            proof {
                lemma_duplicates_named(
                    descriptors@,
                    ids0,
                    sorted,
                    ids_post,
                    w as int,
                    dups0,
                    dups@,
                    names@,
                    components,
                );
            }
            Err(DuplicateComponentsError { bundle_name: name.clone(), component_names: names })
        } else {
            // no duplicates: the deduplicated front is the whole sorted list
            proof {
                assert(ids@ == sorted);
                assert(distinct_type_keys(descriptors@)) by {
                    assert(!has_adjacent_duplicate(sorted));
                    assert(strictly_sorted_by_index(sorted));
                    assert(sorted.no_duplicates()) by {
                        assert forall|a: int, b: int| 0 <= a < b < sorted.len() implies sorted[a]
                            != sorted[b] by {
                            assert(sorted[a].spec_index() < sorted[b].spec_index());
                        }
                    }
                    lemma_multiset_distinct_transfer(sorted, ids0);
                    assert forall|n1: int, n2: int|
                        0 <= n1 < n2 < descriptors@.len() implies (#[trigger] descriptors@[
                    n1]).type_key != (#[trigger] descriptors@[n2]).type_key by {
                        if descriptors@[n1].type_key == descriptors@[n2].type_key {
                            assert(ids0[n1] == ids0[n2]);
                        }
                    }
                }
            }
            let index = self.bundle_infos.len();
            let id = BundleId(index);
            let info = BundleInfo {
                id,
                type_key,
                name: name.clone(),
                component_ids: ids,
            };
            self.bundle_infos.push(info);
            let replaced = self.by_type_id.insert(type_key, id);
            proof {
                assert(replaced is None);
                assert(self.by_type_id.spec_index_of(type_key) == self.by_type_id.items@.len()
                    - 1) by {
                    let w2 = self.by_type_id.spec_index_of(type_key);
                    assert(0 <= w2 < self.by_type_id.items@.len() && self.by_type_id.items@[
                        w2
                    ].0 == type_key);
                    crate::util::type_id_map::lemma_unique_key(
                        &self.by_type_id,
                        w2,
                        self.by_type_id.items@.len() - 1,
                    );
                }
                assert forall|k: TypeKey| old(self).spec_registered(k) implies self
                    .spec_registered(k) && self.spec_id_of(k) == old(self).spec_id_of(k) by {
                    let w2 = old(self).by_type_id.spec_index_of(k);
                    assert(old(self).by_type_id.items@[w2].0 == k);
                    assert(self.by_type_id.items@[w2].0 == k);
                    assert(self.by_type_id.spec_index_of(k) == w2) by {
                        let w3 = self.by_type_id.spec_index_of(k);
                        assert(0 <= w3 < self.by_type_id.items@.len() && self.by_type_id.items@[
                            w3
                        ].0 == k);
                        crate::util::type_id_map::lemma_unique_key(&self.by_type_id, w3, w2);
                    }
                }
            }
            Ok(id)
        }
    }
}

/// Two positionwise key-to-id resolutions repeat an id exactly when the
/// declared keys repeat; transfers distinctness across the sort.
proof fn lemma_ids_distinct_iff(ids0: Seq<ComponentId>, sorted: Seq<ComponentId>)
    requires
        ids0.to_multiset() == sorted.to_multiset(),
    ensures
        ids0.no_duplicates() <==> sorted.no_duplicates(),
{
    if ids0.no_duplicates() {
        lemma_multiset_distinct_transfer(ids0, sorted);
    }
    if sorted.no_duplicates() {
        lemma_multiset_distinct_transfer(sorted, ids0);
    }
}

/// When a declared component type repeats, the name list assembled from the
/// deduplication tail holds that component's name.
proof fn lemma_duplicates_named(
    descs: Seq<ComponentDescriptor>,
    ids0: Seq<ComponentId>,
    sorted: Seq<ComponentId>,
    ids_post: Seq<ComponentId>,
    w: int,
    dups0: Seq<ComponentId>,
    dups: Seq<ComponentId>,
    names: Seq<String>,
    c: &Components,
)
    requires
        ids0.len() == descs.len(),
        forall|n1: int, n2: int|
            0 <= n1 < n2 < descs.len() ==> ((ids0[n1] == ids0[n2]) <==> ((#[trigger] descs[
                n1
            ]).type_key == (#[trigger] descs[n2]).type_key)),
        forall|n: int|
            0 <= n < descs.len() ==> (#[trigger] ids0[n]).0 as int == c.spec_id_of(
                descs[n].type_key,
            ),
        sorted.to_multiset() == ids0.to_multiset(),
        crate::util::sorted_by_index(sorted),
        ids_post.to_multiset() == sorted.to_multiset(),
        0 <= w <= ids_post.len(),
        ids_post.take(w) == adjacent_dedup(sorted),
        dups0.len() == ids_post.len() - w,
        forall|m: int| 0 <= m < dups0.len() ==> #[trigger] dups0[m] == ids_post[w + m],
        dups.to_multiset() == dups0.to_multiset(),
        forall|m2: int|
            0 <= m2 < dups.len() ==> name_listed(names, *c, #[trigger] dups[m2]),
    ensures
        forall|n1: int, n2: int|
            0 <= n1 < n2 < descs.len() && (#[trigger] descs[n1]).type_key == (#[trigger] descs[
                n2
            ]).type_key ==> name_listed(
                names,
                *c,
                ComponentId(c.spec_id_of(descs[n1].type_key) as usize),
            ),
{
    broadcast use vstd::seq_lib::group_to_multiset_ensures;

    assert(ids_post =~= ids_post.take(w) + ids_post.skip(w));
    vstd::seq_lib::lemma_multiset_commutative(ids_post.take(w), ids_post.skip(w));
    assert forall|n1: int, n2: int|
        0 <= n1 < n2 < descs.len() && (#[trigger] descs[n1]).type_key == (#[trigger] descs[
            n2
        ]).type_key implies name_listed(
        names,
        *c,
        ComponentId(c.spec_id_of(descs[n1].type_key) as usize),
    ) by {
        assert(ids0[n1] == ids0[n2]);
        let x = ids0[n1];
        lemma_count_two(ids0, n1, n2);
        assert(sorted.to_multiset().count(x) >= 2);
        lemma_adjacent_dedup_counts(sorted, x);
        assert(ids_post.take(w).to_multiset().count(x) <= 1);
        assert(ids_post.skip(w).to_multiset().count(x) >= 1);
        assert(ids_post.skip(w).contains(x));
        let t = choose|t: int| 0 <= t < ids_post.skip(w).len() && ids_post.skip(w)[t] == x;
        assert(dups0[t] == ids_post[w + t]);
        assert(dups0.contains(x));
        lemma_contains_transfer(dups0, dups, x);
        let m2 = choose|m2: int| 0 <= m2 < dups.len() && dups[m2] == x;
        assert(name_listed(names, *c, dups[m2]));
        assert(x.0 as int == c.spec_id_of(descs[n1].type_key));
        assert(x == ComponentId(c.spec_id_of(descs[n1].type_key) as usize));
    }
}

/// What bundle registration guarantees, shared by its entry points:
/// `b0`/`b1` and `c0`/`c1` are the bundle and component registries before and
/// after, `key`/`name`/`descs` describe the bundle, and `r` is the outcome.
pub open spec fn registration_post(
    b0: Bundles,
    b1: Bundles,
    c0: Components,
    c1: Components,
    key: TypeKey,
    name: Seq<char>,
    descs: Seq<ComponentDescriptor>,
    r: Result<BundleId, DuplicateComponentsError>,
) -> bool {
    &&& b1.wf()
    &&& c1.wf()
    &&& b1.in_range(c1.components@.len() as int)
    // both registries grow conservatively
    &&& c1.components@.len() >= c0.components@.len()
    &&& forall|i: int|
        0 <= i < c0.components@.len() ==> #[trigger] c1.components@[i] == c0.components@[i]
    &&& forall|k: TypeKey|
        c0.spec_registered(k) ==> (c1.spec_registered(k) && c1.spec_id_of(k) == c0.spec_id_of(k))
    &&& b1.bundle_infos@.len() >= b0.bundle_infos@.len()
    &&& forall|i: int|
        0 <= i < b0.bundle_infos@.len() ==> #[trigger] b1.bundle_infos@[i] == b0.bundle_infos@[i]
    &&& forall|k: TypeKey|
        b0.spec_registered(k) ==> (b1.spec_registered(k) && b1.spec_id_of(k) == b0.spec_id_of(k))
    // a cached bundle changes nothing
    &&& b0.spec_registered(key) ==> (b1 == b0 && c1 == c0 && r is Ok && r->Ok_0.0 as int
        == b0.spec_id_of(key))
    // success exactly when cached or free of duplicate component types
    &&& (r is Ok <==> (b0.spec_registered(key) || distinct_type_keys(descs)))
    &&& r is Ok ==> {
        &&& b1.spec_registered(key)
        &&& r->Ok_0.0 as int == b1.spec_id_of(key)
        &&& 0 <= r->Ok_0.0 < b1.bundle_infos@.len()
    }
    // a fresh registration appends one record holding the sorted distinct
    // component ids of the declared types
    &&& (r is Ok && !b0.spec_registered(key)) ==> {
        &&& b1.bundle_infos@.len() == b0.bundle_infos@.len() + 1
        &&& r->Ok_0.0 as int == b0.bundle_infos@.len()
        &&& {
            let info = b1.bundle_infos@.last();
            &&& info.type_key == key
            &&& info.name@ == name
            &&& strictly_sorted_by_index(info.component_ids@)
            &&& info.component_ids@.to_multiset() == ids_of(descs, c1).to_multiset()
            &&& forall|m: int|
                0 <= m < descs.len() ==> c1.spec_registered((#[trigger] descs[m]).type_key)
        }
    }
    // a rejected registration leaves the bundle registry unchanged, names the
    // offending bundle, and names every component type it declares twice
    &&& r is Err ==> {
        &&& b1 == b0
        &&& r->Err_0.bundle_name@ == name
        &&& r->Err_0.component_names@.len() > 0
        &&& forall|m: int|
            0 <= m < descs.len() ==> c1.spec_registered((#[trigger] descs[m]).type_key)
        &&& forall|n1: int, n2: int|
            0 <= n1 < n2 < descs.len() && (#[trigger] descs[n1]).type_key == (
            #[trigger] descs[n2]).type_key ==> name_listed(
                r->Err_0.component_names@,
                c1,
                ComponentId(c1.spec_id_of(descs[n1].type_key) as usize),
            )
    }
}

} // verus!
