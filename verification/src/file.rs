//! Turning a bundle's entries into a pipeline and a resource table.
//!
//! A bundle is a flat archive: exactly one entry with a `.json` name holds
//! the pipeline's declarative text, and every other entry is a resource
//! registered under its file name. An entry stored without compression can
//! be mapped in place and becomes an inline resource; a compressed entry's
//! bytes back a file resource, mapped lazily on first claim. Directories
//! are rejected. The caller reads the archive; this module does all the
//! classification, parsing and registration.

use vstd::prelude::*;

use crate::bytes::{clone_bytes, ends_with, spec_ends_with};
use crate::json::{parse_pipeline, spec_parse_pipeline};
use crate::module::{lemma_states_find_agrees, spec_states_find, spec_states_find_index};
use crate::pipeline::Pipeline;
use crate::resources::{
    EntryState, LoadableResource, Resource, ResourceRegistry, ResourceState,
};

verus! {

/// Why a bundle could not be loaded.
#[derive(Clone, Copy, Debug, PartialEq, Eq, Structural)]
pub enum FileLoadError {
    /// The bundle path does not exist.
    NotExisting,
    /// The bundle path is not a regular file.
    NotAFile,
    /// The bundle path does not carry the pipeline extension.
    InvalidExtension,
    /// No scratch directory could be made for extraction.
    NoTempDir,
    /// The bundle holds an entry that cannot be a resource.
    UnsupportedResource,
    /// The bundle holds no pipeline definition.
    NoJsonFile,
    /// The pipeline definition does not parse.
    BundleMalformed,
}

/// One entry of the bundle, as plain values: its full name, whether it is
/// a directory, whether it was stored uncompressed, and its bytes.
pub struct BundleEntry {
    pub name: Vec<u8>,
    pub is_directory: bool,
    pub stored: bool,
    pub data: Vec<u8>,
}

/// The mathematical shape of an entry.
pub ghost struct BundleEntryView {
    pub name: Seq<u8>,
    pub is_directory: bool,
    pub stored: bool,
    pub data: Seq<u8>,
}

pub open spec fn spec_entry_view(e: BundleEntry) -> BundleEntryView {
    BundleEntryView {
        name: e.name@,
        is_directory: e.is_directory,
        stored: e.stored,
        data: e.data@,
    }
}

pub open spec fn spec_entry_views(es: Seq<BundleEntry>) -> Seq<BundleEntryView> {
    Seq::new(es.len(), |i: int| spec_entry_view(es[i]))
}

/// The suffix that marks the pipeline definition.
pub open spec fn spec_json_suffix() -> Seq<u8> {
    seq![46u8, 106u8, 115u8, 111u8, 110u8]
}

pub open spec fn spec_is_json_name(name: Seq<u8>) -> bool {
    spec_ends_with(name, spec_json_suffix())
}

/// The suffix that marks a bundle file.
pub open spec fn spec_pipeline_suffix() -> Seq<u8> {
    seq![46u8, 122u8, 112u8, 105u8, 112u8, 101u8]
}

/// Does this name carry the bundle extension?
pub fn has_pipeline_extension(name: &Vec<u8>) -> (r: bool)
    ensures
        r <==> spec_ends_with(name@, spec_pipeline_suffix()),
{
    let mut suffix: Vec<u8> = Vec::new();
    suffix.push(46);
    suffix.push(122);
    suffix.push(112);
    suffix.push(105);
    suffix.push(112);
    suffix.push(101);
    proof {
        assert(suffix@ =~= spec_pipeline_suffix());
    }
    ends_with(name, &suffix)
}

/// The resource an entry is registered as.
pub open spec fn spec_entry_resource_state(e: BundleEntryView) -> ResourceState {
    if e.stored {
        ResourceState { is_file: false, source: Option::Some(e.data) }
    } else {
        ResourceState { is_file: true, source: Option::Some(e.data) }
    }
}

/// Registering one more resource: a duplicate name overwrites in place,
/// a new name goes to the end.
pub open spec fn spec_states_add(states: Seq<EntryState>, st: EntryState) -> Seq<EntryState> {
    if spec_states_find(states, st.name) is Some {
        states.update(spec_states_find_index(states, st.name), st)
    } else {
        states.push(st)
    }
}

/// The resource table a bundle's entries build up, in order.
pub open spec fn spec_bundle_states(entries: Seq<BundleEntryView>) -> Seq<EntryState>
    decreases entries.len(),
{
    if entries.len() == 0 {
        Seq::empty()
    } else {
        let prev = spec_bundle_states(entries.drop_last());
        let e = entries.last();
        if e.is_directory || spec_is_json_name(e.name) {
            prev
        } else {
            spec_states_add(
                prev,
                EntryState { name: e.name, counter: 0, resource: spec_entry_resource_state(e) },
            )
        }
    }
}

/// The pipeline definition is the last `.json` entry, if any.
pub open spec fn spec_bundle_json(entries: Seq<BundleEntryView>) -> Option<Seq<u8>>
    decreases entries.len(),
{
    if entries.len() == 0 {
        Option::None
    } else if spec_is_json_name(entries.last().name) {
        Option::Some(entries.last().data)
    } else {
        spec_bundle_json(entries.drop_last())
    }
}

pub open spec fn spec_has_directory(entries: Seq<BundleEntryView>) -> bool {
    exists|i: int| 0 <= i < entries.len() && (#[trigger] entries[i]).is_directory
}

/// Classify a bundle's entries: reject directories, take the last `.json`
/// entry as the pipeline definition and parse it, and register every
/// other entry as a named resource, stored entries inline and compressed
/// entries file-backed.
pub fn load_pipeline_bundle(entries: Vec<BundleEntry>) -> (r: Result<
    (Pipeline, ResourceRegistry),
    FileLoadError,
>)
    ensures
        ({
            let views = spec_entry_views(entries@);
            match r {
                Result::Err(FileLoadError::UnsupportedResource) => spec_has_directory(views),
                Result::Err(FileLoadError::NoJsonFile) => !spec_has_directory(views)
                    && spec_bundle_json(views) is None,
                Result::Err(FileLoadError::BundleMalformed) => {
                    &&& !spec_has_directory(views)
                    &&& spec_bundle_json(views) matches Option::Some(text)
                        && spec_parse_pipeline(text) is None
                },
                Result::Ok((p, registry)) => {
                    &&& !spec_has_directory(views)
                    &&& spec_bundle_json(views) matches Option::Some(text)
                        && spec_parse_pipeline(text) == Option::Some(
                        crate::pipeline::spec_serial_view(p.root),
                    )
                    &&& crate::pipeline::spec_serial_valid(
                        crate::pipeline::spec_serial_view(p.root),
                    )
                    &&& registry.wf()
                    &&& registry.spec_states() == spec_bundle_states(views)
                    &&& forall|k: int|
                        0 <= k < registry.spec_states().len() ==> (#[trigger] registry
                            .spec_states()[k]).counter == 0
                },
                _ => false,
            }
        }),
{
    let ghost views = spec_entry_views(entries@);
    let mut json_suffix: Vec<u8> = Vec::new();
    json_suffix.push(46);
    json_suffix.push(106);
    json_suffix.push(115);
    json_suffix.push(111);
    json_suffix.push(110);
    proof {
        assert(json_suffix@ =~= spec_json_suffix());
    }
    let mut registry = ResourceRegistry::new();
    let mut json_text: Option<Vec<u8>> = Option::None;
    let mut i: usize = 0;
    proof {
        assert(spec_entry_views(entries@).take(0) =~= Seq::<BundleEntryView>::empty());
        assert(registry.spec_states() =~= Seq::<EntryState>::empty());
    }
    while i < entries.len()
        invariant
            0 <= i <= entries@.len(),
            json_suffix@ == spec_json_suffix(),
            views == spec_entry_views(entries@),
            views.len() == entries@.len(),
            forall|k: int| 0 <= k < i ==> !(#[trigger] views[k]).is_directory,
            registry.wf(),
            registry.spec_states() =~= spec_bundle_states(views.take(i as int)),
            forall|k: int|
                0 <= k < registry.spec_states().len() ==> (#[trigger] registry
                    .spec_states()[k]).counter == 0,
            (match json_text {
                Option::Some(t) => spec_bundle_json(views.take(i as int)) == Option::Some(t@),
                Option::None => spec_bundle_json(views.take(i as int)) is None,
            }),
        decreases entries@.len() - i,
    {
        proof {
            assert(views[i as int] == spec_entry_view(entries@[i as int]));
            assert(views.take(i + 1).drop_last() =~= views.take(i as int));
            assert(views.take(i + 1).last() == views[i as int]);
        }
        let entry = &entries[i];
        if entry.is_directory {
            return Err(FileLoadError::UnsupportedResource);
        }
        if ends_with(&entry.name, &json_suffix) {
            json_text = Option::Some(clone_bytes(&entry.data));
        } else {
            let resource = if entry.stored {
                Resource::Bytes(clone_bytes(&entry.data))
            } else {
                Resource::File {
                    path: clone_bytes(&entry.name),
                    contents: Option::Some(clone_bytes(&entry.data)),
                    mmap: Option::None,
                }
            };
            let ghost st = EntryState {
                name: entry.name@,
                counter: 0,
                resource: spec_entry_resource_state(views[i as int]),
            };
            let ghost states_before = registry.spec_states();
            proof {
                crate::resources::lemma_loadable_from(resource);
                lemma_states_find_agrees(registry, entry.name@);
            }
            let loadable = LoadableResource::from(resource);
            registry.add_resource(&entry.name, loadable);
            proof {
                assert(registry.spec_states() =~= spec_states_add(states_before, st)) by {
                    match spec_states_find(states_before, st.name) {
                        Option::Some(_) => {},
                        Option::None => {},
                    }
                }
            }
        }
        i = i + 1;
    }
    proof {
        assert(views.take(views.len() as int) =~= views);
    }
    let text = match json_text {
        Option::None => {
            return Err(FileLoadError::NoJsonFile);
        },
        Option::Some(t) => t,
    };
    match parse_pipeline(&text) {
        Option::None => Err(FileLoadError::BundleMalformed),
        Option::Some(p) => Ok((p, registry)),
    }
}

} // verus!
