//! Named, immutable, reference-counted binary resources.
//!
//! A resource is either an inline byte vector or file-backed. A file-backed
//! resource carries the file's bytes as its source together with an optional
//! active map; the map is installed when the reference count goes from zero
//! to one and dropped when it returns to zero, so the mapped bytes exist
//! exactly while at least one handle is outstanding.

use vstd::prelude::*;

use crate::bytes::{bytes_eq, clone_bytes};

verus! {

/// Why acquiring a resource failed.
#[derive(Clone, Copy, Debug, PartialEq, Eq, Structural)]
pub enum ResourceError {
    /// No resource is registered under the requested name.
    Missing,
    /// The resource exists but its bytes could not be materialized.
    MapFailed,
}

/// A named blob's storage.
pub enum Resource {
    /// Backed by a file: `contents` holds the file's bytes when they could
    /// be read, and `mmap` is the active map, present only while the
    /// resource is claimed.
    File { path: Vec<u8>, contents: Option<Vec<u8>>, mmap: Option<Vec<u8>> },
    /// An owned byte vector, always available.
    Bytes(Vec<u8>),
}

/// The observable state of one resource: whether it is file-backed and
/// what materialization would yield. Together with the reference count this
/// determines everything a client can see of it.
pub ghost struct ResourceState {
    pub is_file: bool,
    pub source: Option<Seq<u8>>,
}

impl Resource {
    pub open spec fn spec_is_file(self) -> bool {
        self matches Resource::File { .. }
    }

    /// The bytes materialization would observe, if any.
    pub open spec fn spec_source(self) -> Option<Seq<u8>> {
        match self {
            Resource::File { contents, .. } => match contents {
                Option::Some(c) => Option::Some(c@),
                Option::None => Option::None,
            },
            Resource::Bytes(v) => Option::Some(v@),
        }
    }

    /// The bytes currently observable through the active map.
    pub open spec fn spec_mapped(self) -> Option<Seq<u8>> {
        match self {
            Resource::File { mmap, .. } => match mmap {
                Option::Some(m) => Option::Some(m@),
                Option::None => Option::None,
            },
            Resource::Bytes(v) => Option::Some(v@),
        }
    }

    pub open spec fn spec_state(self) -> ResourceState {
        ResourceState { is_file: self.spec_is_file(), source: self.spec_source() }
    }

    pub open spec fn wf(self) -> bool {
        match self {
            Resource::File { contents, mmap, .. } => match mmap {
                Option::Some(m) => contents is Some && m@ == contents->0@,
                Option::None => true,
            },
            Resource::Bytes(_) => true,
        }
    }

    /// Install the active map from the source bytes. A no-op for inline
    /// resources; fails when a file-backed resource has no readable bytes.
    pub fn load(&mut self) -> (r: Result<(), ResourceError>)
        requires
            old(self).wf(),
        ensures
            final(self).wf(),
            final(self).spec_state() == old(self).spec_state(),
            match r {
                Result::Ok(()) => {
                    &&& old(self).spec_source() is Some
                    &&& final(self).spec_mapped() == old(self).spec_source()
                },
                Result::Err(e) => {
                    &&& e == ResourceError::MapFailed
                    &&& old(self).spec_source() is None
                    &&& *final(self) == *old(self)
                },
            },
    {
        let mut tmp = Resource::Bytes(Vec::new());
        core::mem::swap(self, &mut tmp);
        match tmp {
            Resource::File { path, contents, mmap: _ } => {
                match contents {
                    Option::Some(c) => {
                        let m = clone_bytes(&c);
                        *self = Resource::File {
                            path,
                            contents: Option::Some(c),
                            mmap: Option::Some(m),
                        };
                        Ok(())
                    },
                    Option::None => {
                        *self = Resource::File { path, contents: Option::None, mmap: Option::None };
                        Err(ResourceError::MapFailed)
                    },
                }
            },
            Resource::Bytes(v) => {
                *self = Resource::Bytes(v);
                Ok(())
            },
        }
    }

    /// Drop the active map. A no-op for inline resources.
    pub fn unload(&mut self)
        requires
            old(self).wf(),
        ensures
            final(self).wf(),
            final(self).spec_state() == old(self).spec_state(),
            match *old(self) {
                Resource::File { .. } => final(self).spec_mapped() is None,
                Resource::Bytes(_) => *final(self) == *old(self),
            },
    {
        let mut tmp = Resource::Bytes(Vec::new());
        core::mem::swap(self, &mut tmp);
        match tmp {
            Resource::File { path, contents, mmap: _ } => {
                *self = Resource::File { path, contents, mmap: Option::None };
            },
            Resource::Bytes(v) => {
                *self = Resource::Bytes(v);
            },
        }
    }

    /// The size of the mapped bytes, absent while unmapped.
    pub fn size(&self) -> (r: Option<usize>)
        ensures
            match self.spec_mapped() {
                Option::Some(m) => r == Option::Some(m.len() as usize),
                Option::None => r is None,
            },
    {
        match self {
            Resource::File { mmap, .. } => match mmap {
                Option::Some(m) => Option::Some(m.len()),
                Option::None => Option::None,
            },
            Resource::Bytes(v) => Option::Some(v.len()),
        }
    }

    /// The mapped bytes themselves, absent while unmapped.
    pub fn as_ptr(&self) -> (r: Option<&Vec<u8>>)
        ensures
            match self.spec_mapped() {
                Option::Some(m) => r is Some && r->0@ == m,
                Option::None => r is None,
            },
    {
        match self {
            Resource::File { mmap, .. } => match mmap {
                Option::Some(m) => Option::Some(m),
                Option::None => Option::None,
            },
            Resource::Bytes(v) => Option::Some(v),
        }
    }
}

/// A resource together with its reference count.
pub struct LoadableResource {
    resource: Resource,
    ref_counter: usize,
}

impl LoadableResource {
    pub closed spec fn spec_resource(self) -> Resource {
        self.resource
    }

    pub closed spec fn spec_counter(self) -> nat {
        self.ref_counter as nat
    }

    pub open spec fn spec_state(self) -> ResourceState {
        self.spec_resource().spec_state()
    }

    /// The count is positive exactly while the resource is mapped, and
    /// only a readable resource can be claimed.
    pub open spec fn wf(self) -> bool {
        &&& self.spec_resource().wf()
        &&& self.spec_counter() == 0 ==> (match self.spec_resource() {
            Resource::File { mmap, .. } => mmap is None,
            Resource::Bytes(_) => true,
        })
        &&& self.spec_counter() > 0 ==> {
            &&& self.spec_resource().spec_source() is Some
            &&& self.spec_resource().spec_mapped() == self.spec_resource().spec_source()
        }
    }

    /// Take one reference. A zero-to-one transition materializes the
    /// resource; if that fails, the count is left untouched.
    pub fn claim(&mut self) -> (r: Result<(), ResourceError>)
        requires
            old(self).wf(),
            old(self).spec_counter() < usize::MAX,
        ensures
            final(self).wf(),
            final(self).spec_state() == old(self).spec_state(),
            match r {
                Result::Ok(()) => {
                    &&& old(self).spec_state().source is Some
                    &&& final(self).spec_counter() == old(self).spec_counter() + 1
                    &&& final(self).spec_resource().spec_mapped() == old(
                        self,
                    ).spec_resource().spec_source()
                },
                Result::Err(e) => {
                    &&& e == ResourceError::MapFailed
                    &&& old(self).spec_state().source is None
                    &&& *final(self) == *old(self)
                },
            },
    {
        if self.ref_counter == 0 {
            match self.resource.load() {
                Ok(()) => {
                    self.ref_counter = 1;
                    Ok(())
                },
                Err(e) => Err(e),
            }
        } else {
            self.ref_counter = self.ref_counter + 1;
            Ok(())
        }
    }

    /// Give one reference back. A one-to-zero transition drops the map.
    pub fn release(&mut self)
        requires
            old(self).wf(),
            old(self).spec_counter() > 0,
        ensures
            final(self).wf(),
            final(self).spec_counter() == old(self).spec_counter() - 1,
            final(self).spec_state() == old(self).spec_state(),
    {
        self.ref_counter = self.ref_counter - 1;
        if self.ref_counter == 0 {
            self.resource.unload();
        }
    }

    /// Is at least one handle outstanding?
    pub fn is_loaded(&self) -> (r: bool)
        ensures
            r <==> self.spec_counter() > 0,
    {
        self.ref_counter > 0
    }
}

impl From<Resource> for LoadableResource {
    /// A fresh loadable resource starts with a count of zero.
    fn from(resource: Resource) -> (r: LoadableResource) {
        LoadableResource { resource, ref_counter: 0 }
    }
}

impl vstd::std_specs::convert::FromSpecImpl<Resource> for LoadableResource {
    open spec fn obeys_from_spec() -> bool {
        true
    }

    closed spec fn from_spec(resource: Resource) -> LoadableResource {
        LoadableResource { resource, ref_counter: 0 }
    }
}

/// What `LoadableResource::from` builds: the given resource, count zero.
pub broadcast proof fn lemma_loadable_from(resource: Resource)
    ensures
        (#[trigger] <LoadableResource as vstd::std_specs::convert::FromSpec<
            Resource,
        >>::from_spec(resource)).spec_resource() == resource,
        <LoadableResource as vstd::std_specs::convert::FromSpec<Resource>>::from_spec(
            resource,
        ).spec_counter() == 0,
{
}

/// A live reference to a materialized resource: its name and the mapped
/// bytes it observed. Handles are given back to the registry's `release`,
/// which decrements the count they stand for.
pub struct ResourceHandle {
    name: Vec<u8>,
    data: Vec<u8>,
}

impl ResourceHandle {
    pub closed spec fn spec_name(self) -> Seq<u8> {
        self.name@
    }

    pub closed spec fn spec_data(self) -> Seq<u8> {
        self.data@
    }

    /// The size of the bytes the handle observes.
    pub fn size(&self) -> (r: Option<usize>)
        ensures
            r == Option::Some(self.spec_data().len() as usize),
    {
        Option::Some(self.data.len())
    }

    /// The bytes the handle observes.
    pub fn as_ptr(&self) -> (r: Option<&Vec<u8>>)
        ensures
            r is Some,
            r->0@ == self.spec_data(),
    {
        Option::Some(&self.data)
    }

    /// The name the handle was acquired under.
    pub fn name(&self) -> (r: &Vec<u8>)
        ensures
            r@ == self.spec_name(),
    {
        &self.name
    }
}

/// One registry slot: a name and the loadable resource filed under it.
pub struct ResourceEntry {
    name: Vec<u8>,
    loadable: LoadableResource,
}

/// The observable state of one registry slot.
pub ghost struct EntryState {
    pub name: Seq<u8>,
    pub counter: nat,
    pub resource: ResourceState,
}

impl ResourceEntry {
    pub closed spec fn spec_name(self) -> Seq<u8> {
        self.name@
    }

    pub closed spec fn spec_loadable(self) -> LoadableResource {
        self.loadable
    }

    pub open spec fn spec_state(self) -> EntryState {
        EntryState {
            name: self.spec_name(),
            counter: self.spec_loadable().spec_counter(),
            resource: self.spec_loadable().spec_state(),
        }
    }

    pub open spec fn wf(self) -> bool {
        self.spec_loadable().wf()
    }
}

/// The table of named resources.
pub struct ResourceRegistry {
    available: Vec<ResourceEntry>,
}

impl ResourceRegistry {
    pub closed spec fn entries(self) -> Seq<ResourceEntry> {
        self.available@
    }

    /// The observable state of the whole table, in registration order.
    pub open spec fn spec_states(self) -> Seq<EntryState> {
        self.entries().map_values(|e: ResourceEntry| e.spec_state())
    }

    /// Names are unique and every entry is well-formed.
    pub open spec fn wf(self) -> bool {
        &&& forall|i: int, j: int|
            0 <= i < j < self.entries().len() ==> self.entries()[i].spec_name()
                != self.entries()[j].spec_name()
        &&& forall|i: int| 0 <= i < self.entries().len() ==> (#[trigger] self.entries()[i]).wf()
    }

    /// The index holding `name`, if any.
    pub open spec fn spec_find(self, name: Seq<u8>) -> Option<int> {
        if exists|i: int| 0 <= i < self.entries().len() && self.entries()[i].spec_name() == name {
            Option::Some(
                choose|i: int|
                    0 <= i < self.entries().len() && self.entries()[i].spec_name() == name,
            )
        } else {
            Option::None
        }
    }

    pub open spec fn spec_contains(self, name: Seq<u8>) -> bool {
        self.spec_find(name) is Some
    }

    /// The reference count of the resource filed under `name`.
    pub open spec fn spec_counter(self, name: Seq<u8>) -> nat
        recommends
            self.spec_contains(name),
    {
        self.entries()[self.spec_find(name)->0].spec_loadable().spec_counter()
    }

    /// The source bytes of the resource filed under `name`, if readable.
    pub open spec fn spec_source(self, name: Seq<u8>) -> Option<Seq<u8>>
        recommends
            self.spec_contains(name),
    {
        self.entries()[self.spec_find(name)->0].spec_loadable().spec_resource().spec_source()
    }

    pub fn new() -> (r: ResourceRegistry)
        ensures
            r.entries() =~= Seq::<ResourceEntry>::empty(),
            r.wf(),
    {
        ResourceRegistry { available: Vec::new() }
    }

    fn find_index(&self, name: &Vec<u8>) -> (r: Option<usize>)
        requires
            self.wf(),
        ensures
            match r {
                Option::Some(i) => {
                    &&& 0 <= i < self.entries().len()
                    &&& self.entries()[i as int].spec_name() == name@
                    &&& self.spec_find(name@) == Option::Some(i as int)
                },
                Option::None => !self.spec_contains(name@),
            },
    {
        let mut i: usize = 0;
        while i < self.available.len()
            invariant
                self.wf(),
                0 <= i <= self.entries().len(),
                forall|j: int| 0 <= j < i ==> self.entries()[j].spec_name() != name@,
            decreases self.entries().len() - i,
        {
            if bytes_eq(&self.available[i].name, name) {
                proof {
                    lemma_find_unique(*self, name@, i as int);
                }
                return Option::Some(i);
            }
            i = i + 1;
        }
        Option::None
    }

    /// Register `resource` under `name`; a duplicate name overwrites the
    /// old entry.
    pub fn add_resource(&mut self, name: &Vec<u8>, resource: LoadableResource)
        requires
            old(self).wf(),
            resource.wf(),
        ensures
            final(self).wf(),
            final(self).spec_contains(name@),
            final(self).spec_counter(name@) == resource.spec_counter(),
            final(self).spec_source(name@) == resource.spec_resource().spec_source(),
            match old(self).spec_find(name@) {
                Option::Some(i) => final(self).spec_states() =~= old(self).spec_states().update(
                    i,
                    EntryState {
                        name: name@,
                        counter: resource.spec_counter(),
                        resource: resource.spec_state(),
                    },
                ),
                Option::None => final(self).spec_states() =~= old(self).spec_states().push(
                    EntryState {
                        name: name@,
                        counter: resource.spec_counter(),
                        resource: resource.spec_state(),
                    },
                ),
            },
    {
        let nm = clone_bytes(name);
        let entry = ResourceEntry { name: nm, loadable: resource };
        match self.find_index(name) {
            Option::Some(i) => {
                let _old_entry = self.available.remove(i);
                self.available.insert(i, entry);
                proof {
                    assert(self.entries() =~= old(self).entries().update(
                        i as int,
                        self.entries()[i as int],
                    ));
                    lemma_find_unique(*self, name@, i as int);
                }
            },
            Option::None => {
                self.available.push(entry);
                proof {
                    let len = old(self).entries().len() as int;
                    lemma_find_unique(*self, name@, len);
                }
            },
        }
    }

    /// Acquire a handle on the resource filed under `name`, incrementing
    /// its reference count and materializing it if the count was zero.
    pub fn get(&mut self, name: &Vec<u8>) -> (r: Result<ResourceHandle, ResourceError>)
        requires
            old(self).wf(),
            old(self).spec_contains(name@) ==> old(self).spec_counter(name@) < usize::MAX,
        ensures
            final(self).wf(),
            match r {
                Result::Ok(h) => {
                    &&& old(self).spec_contains(name@)
                    &&& old(self).spec_source(name@) is Some
                    &&& h.spec_name() == name@
                    &&& h.spec_data() == old(self).spec_source(name@)->0
                    &&& final(self).spec_find(name@) == old(self).spec_find(name@)
                    &&& final(self).spec_states() =~= old(self).spec_states().update(
                        old(self).spec_find(name@)->0,
                        EntryState {
                            counter: (old(self).spec_counter(name@) + 1) as nat,
                            ..old(self).spec_states()[old(self).spec_find(name@)->0]
                        },
                    )
                },
                Result::Err(ResourceError::Missing) => {
                    &&& !old(self).spec_contains(name@)
                    &&& final(self).entries() == old(self).entries()
                },
                Result::Err(ResourceError::MapFailed) => {
                    &&& old(self).spec_contains(name@)
                    &&& old(self).spec_source(name@) is None
                    &&& final(self).entries() == old(self).entries()
                },
            },
    {
        match self.find_index(name) {
            Option::None => Err(ResourceError::Missing),
            Option::Some(i) => {
                let mut entry = self.available.remove(i);
                let claim_result = entry.loadable.claim();
                match claim_result {
                    Err(e) => {
                        self.available.insert(i, entry);
                        proof {
                            assert(self.entries() =~= old(self).entries());
                        }
                        Err(e)
                    },
                    Ok(()) => {
                        let data = match entry.loadable.resource.as_ptr() {
                            Option::Some(m) => clone_bytes(m),
                            Option::None => {
                                // Unreachable: a claimed resource is mapped.
                                proof {
                                    assert(false);
                                }
                                Vec::new()
                            },
                        };
                        let handle = ResourceHandle { name: clone_bytes(name), data };
                        self.available.insert(i, entry);
                        proof {
                            assert(self.entries() =~= old(self).entries().update(
                                i as int,
                                self.entries()[i as int],
                            ));
                            lemma_find_unique(*self, name@, i as int);
                            assert(self.spec_states() =~= old(self).spec_states().update(
                                i as int,
                                EntryState {
                                    counter: (old(self).spec_counter(name@) + 1) as nat,
                                    ..old(self).spec_states()[i as int]
                                },
                            ));
                        }
                        Ok(handle)
                    },
                }
            },
        }
    }

    /// Give a handle back: decrement the count of the resource it names;
    /// a last release drops the map.
    pub fn release(&mut self, handle: ResourceHandle)
        requires
            old(self).wf(),
            old(self).spec_contains(handle.spec_name()),
            old(self).spec_counter(handle.spec_name()) > 0,
        ensures
            final(self).wf(),
            final(self).spec_find(handle.spec_name()) == old(self).spec_find(handle.spec_name()),
            final(self).spec_states() =~= old(self).spec_states().update(
                old(self).spec_find(handle.spec_name())->0,
                EntryState {
                    counter: (old(self).spec_counter(handle.spec_name()) - 1) as nat,
                    ..old(self).spec_states()[old(self).spec_find(handle.spec_name())->0]
                },
            ),
    {
        let name = handle.name;
        match self.find_index(&name) {
            Option::None => {
                proof {
                    assert(false);
                }
            },
            Option::Some(i) => {
                let mut entry = self.available.remove(i);
                entry.loadable.release();
                self.available.insert(i, entry);
                proof {
                    assert(self.entries() =~= old(self).entries().update(
                        i as int,
                        self.entries()[i as int],
                    ));
                    lemma_find_unique(*self, name@, i as int);
                    assert(self.spec_states() =~= old(self).spec_states().update(
                        i as int,
                        EntryState {
                            counter: (old(self).spec_counter(name@) - 1) as nat,
                            ..old(self).spec_states()[i as int]
                        },
                    ));
                }
            },
        }
    }

    /// How many resources are currently materialized (count above zero).
    pub fn loaded_resources_count(&self) -> (r: usize)
        ensures
            r == spec_loaded_count(self.spec_states()),
    {
        let mut count: usize = 0;
        let mut i: usize = 0;
        proof {
            assert(self.spec_states().take(0) =~= Seq::<EntryState>::empty());
        }
        while i < self.available.len()
            invariant
                0 <= i <= self.entries().len(),
                self.spec_states().len() == self.entries().len(),
                count == spec_loaded_count(self.spec_states().take(i as int)),
                count <= i,
            decreases self.entries().len() - i,
        {
            proof {
                assert(self.spec_states().take(i + 1).drop_last() =~= self.spec_states().take(
                    i as int,
                ));
                assert(self.spec_states().take(i + 1).last() == self.spec_states()[i as int]);
            }
            if self.available[i].loadable.is_loaded() {
                count = count + 1;
            }
            i = i + 1;
        }
        proof {
            assert(self.spec_states().take(self.entries().len() as int) =~= self.spec_states());
        }
        count
    }
}

/// The number of registry slots whose reference count is positive.
pub open spec fn spec_loaded_count(states: Seq<EntryState>) -> int
    decreases states.len(),
{
    if states.len() == 0 {
        0
    } else {
        spec_loaded_count(states.drop_last()) + if states.last().counter > 0 {
            1int
        } else {
            0int
        }
    }
}

/// In a well-formed registry, an index holding `name` is the index
/// `spec_find` returns.
proof fn lemma_find_unique(r: ResourceRegistry, name: Seq<u8>, i: int)
    requires
        forall|a: int, b: int|
            0 <= a < b < r.entries().len() ==> r.entries()[a].spec_name()
                != r.entries()[b].spec_name(),
        0 <= i < r.entries().len(),
        r.entries()[i].spec_name() == name,
    ensures
        r.spec_find(name) == Option::Some(i),
{
    let j = choose|j: int| 0 <= j < r.entries().len() && r.entries()[j].spec_name() == name;
    if i != j {
        if i < j {
            assert(r.entries()[i].spec_name() != r.entries()[j].spec_name());
        } else {
            assert(r.entries()[j].spec_name() != r.entries()[i].spec_name());
        }
    }
}

/// Counts are unchanged when every slot's state is unchanged.
pub proof fn lemma_loaded_count_congruence(a: Seq<EntryState>, b: Seq<EntryState>)
    requires
        a.len() == b.len(),
        forall|i: int| 0 <= i < a.len() ==> a[i].counter == b[i].counter,
    ensures
        spec_loaded_count(a) == spec_loaded_count(b),
    decreases a.len(),
{
    if a.len() > 0 {
        lemma_loaded_count_congruence(a.drop_last(), b.drop_last());
    }
}

} // verus!
