//! The module registry: finding, loading and caching modules.
//!
//! The registry knows a set of search paths and the modules installed
//! under them, and keeps a cache of the modules already loaded. Loading is
//! idempotent: once a name is cached, every later request observes the
//! same module and leaves the registry untouched.

use vstd::prelude::*;
use vstd::string::StringSliceAdditionalSpecFns;

use crate::bytes::{bytes_eq, clone_bytes, extend_bytes};
use crate::module::{
    spec_kind_view, spec_module_view, CommandKind, Module, ModuleCommand, ModuleView,
};

verus! {

broadcast use crate::bytes::lemma_bytes_deep_view;

/// Why a module could not be loaded: one message for each attempted
/// location.
#[derive(Debug)]
pub enum ModuleLoadError {
    LoadFailed(Vec<Vec<u8>>),
}

/// The observable state of the registry.
pub ghost struct RegistryView {
    pub search_paths: Seq<Seq<u8>>,
    pub available: Seq<ModuleView>,
    pub cache: Seq<ModuleView>,
}

/// The registry itself. `available` models the module files reachable
/// through the search paths; `registry` is the cache of loaded modules.
pub struct ModuleRegistry {
    search_paths: Vec<Vec<u8>>,
    available: Vec<Module>,
    registry: Vec<Module>,
}

/// The first module of that name, if any.
pub open spec fn spec_find_module(mods: Seq<ModuleView>, name: Seq<u8>) -> Option<int>
    decreases mods.len(),
{
    if mods.len() == 0 {
        Option::None
    } else if mods[0].name == name {
        Option::Some(0)
    } else {
        match spec_find_module(mods.drop_first(), name) {
            Option::Some(i) => Option::Some(i + 1),
            Option::None => Option::None,
        }
    }
}

pub proof fn lemma_find_module_props(mods: Seq<ModuleView>, name: Seq<u8>)
    ensures
        match spec_find_module(mods, name) {
            Option::Some(i) => 0 <= i < mods.len() && mods[i].name == name,
            Option::None => forall|i: int| 0 <= i < mods.len() ==> mods[i].name != name,
        },
    decreases mods.len(),
{
    if mods.len() > 0 && mods[0].name != name {
        lemma_find_module_props(mods.drop_first(), name);
        match spec_find_module(mods.drop_first(), name) {
            Option::Some(i) => {
                assert(mods.drop_first()[i] == mods[i + 1]);
            },
            Option::None => {
                assert forall|i: int| 0 <= i < mods.len() implies mods[i].name != name by {
                    if i > 0 {
                        assert(mods.drop_first()[i - 1] == mods[i]);
                    }
                }
            },
        }
    }
}

/// The file name a module is looked up under.
pub open spec fn spec_module_file_name(name: Seq<u8>) -> Seq<u8> {
    name + ".so".spec_bytes()
}

/// The full path tried for one search path.
pub open spec fn spec_attempt_path(path: Seq<u8>, name: Seq<u8>) -> Seq<u8> {
    path + "/".spec_bytes() + spec_module_file_name(name)
}

/// Every location tried for a name, in search-path order.
pub open spec fn spec_attempted_paths(paths: Seq<Seq<u8>>, name: Seq<u8>) -> Seq<Seq<u8>> {
    paths.map_values(|p: Seq<u8>| spec_attempt_path(p, name))
}

/// What one `get_module` call does: the registry afterwards, and either
/// the module observed or the list of locations tried in vain.
pub open spec fn spec_step_get(rv: RegistryView, name: Seq<u8>) -> (RegistryView, Result<
    ModuleView,
    Seq<Seq<u8>>,
>) {
    match spec_find_module(rv.cache, name) {
        Option::Some(i) => (rv, Result::Ok(rv.cache[i])),
        Option::None => match spec_find_module(rv.available, name) {
            Option::Some(j) => (
                RegistryView { cache: rv.cache.push(rv.available[j]), ..rv },
                Result::Ok(rv.available[j]),
            ),
            Option::None => (rv, Result::Err(spec_attempted_paths(rv.search_paths, name))),
        },
    }
}

/// Which module a name denotes: the cached one, else the installed one.
pub open spec fn spec_resolve(rv: RegistryView, name: Seq<u8>) -> Option<ModuleView> {
    match spec_find_module(rv.cache, name) {
        Option::Some(i) => Option::Some(rv.cache[i]),
        Option::None => match spec_find_module(rv.available, name) {
            Option::Some(j) => Option::Some(rv.available[j]),
            Option::None => Option::None,
        },
    }
}

/// Loading resolves to what `spec_resolve` says, and changes how no name
/// resolves.
pub proof fn lemma_step_get_resolution(rv: RegistryView, name: Seq<u8>)
    ensures
        (spec_step_get(rv, name).1 matches Result::Ok(m) ==> spec_resolve(rv, name)
            == Option::Some(m)),
        (spec_step_get(rv, name).1 matches Result::Err(_) ==> spec_resolve(rv, name) is None),
        forall|n: Seq<u8>|
            #[trigger] spec_resolve(spec_step_get(rv, name).0, n) == spec_resolve(rv, n),
{
    let rv1 = spec_step_get(rv, name).0;
    assert forall|n: Seq<u8>| #[trigger] spec_resolve(rv1, n) == spec_resolve(rv, n) by {
        if spec_find_module(rv.cache, name) is None && spec_find_module(
            rv.available,
            name,
        ) is Some {
            let j = spec_find_module(rv.available, name)->0;
            lemma_find_module_props(rv.available, name);
            lemma_find_module_props(rv.cache, n);
            lemma_find_module_props(rv1.cache, n);
            lemma_find_push(rv.cache, rv.available[j], n);
            if n == name {
                lemma_find_module_props(rv.available, n);
            }
        }
    }
}

/// Looking a name up in a cache extended by one module: an old hit is
/// unchanged; a miss now finds exactly the new module's name.
proof fn lemma_find_push(cache: Seq<ModuleView>, m: ModuleView, n: Seq<u8>)
    ensures
        match spec_find_module(cache, n) {
            Option::Some(i) => spec_find_module(cache.push(m), n) == Option::Some(i),
            Option::None => if m.name == n {
                spec_find_module(cache.push(m), n) == Option::Some(cache.len() as int)
            } else {
                spec_find_module(cache.push(m), n) is None
            },
        },
    decreases cache.len(),
{
    if cache.len() == 0 {
        assert(cache.push(m)[0] == m);
        assert(cache.push(m).drop_first() =~= Seq::<ModuleView>::empty());
    } else {
        assert(cache.push(m)[0] == cache[0]);
        assert(cache.push(m).drop_first() =~= cache.drop_first().push(m));
        lemma_find_push(cache.drop_first(), m, n);
    }
}

/// A second load of the same name finds the cache already filled: it
/// returns the same module and leaves the registry as it was.
pub proof fn lemma_get_module_idempotent(rv: RegistryView, name: Seq<u8>)
    requires
        spec_step_get(rv, name).1 is Ok,
    ensures
        spec_step_get(spec_step_get(rv, name).0, name) == (
            spec_step_get(rv, name).0,
            spec_step_get(rv, name).1,
        ),
{
    let (rv1, r1) = spec_step_get(rv, name);
    match spec_find_module(rv.cache, name) {
        Option::Some(i) => {},
        Option::None => {
            let j = spec_find_module(rv.available, name)->0;
            lemma_find_module_props(rv.available, name);
            lemma_find_push(rv.cache, rv.available[j], name);
        },
    }
}

impl ModuleRegistry {
    pub closed spec fn view_of(self) -> RegistryView {
        RegistryView {
            search_paths: self.search_paths.deep_view(),
            available: Seq::new(
                self.available@.len(),
                |i: int| spec_module_view(self.available@[i]),
            ),
            cache: Seq::new(self.registry@.len(), |i: int| spec_module_view(self.registry@[i])),
        }
    }

    /// A fresh registry with the default search path and nothing
    /// installed.
    pub fn new() -> (r: ModuleRegistry)
        ensures
            r.view_of().cache =~= Seq::<ModuleView>::empty(),
            r.view_of().available =~= Seq::<ModuleView>::empty(),
            r.view_of().search_paths =~= seq!["modules".spec_bytes()],
    {
        let mut search_paths: Vec<Vec<u8>> = Vec::new();
        search_paths.push(vstd::slice::slice_to_vec("modules".as_bytes()));
        let r = ModuleRegistry { search_paths, available: Vec::new(), registry: Vec::new() };
        proof {
            assert(r.view_of().search_paths =~= seq!["modules".spec_bytes()]);
        }
        r
    }

    /// Add a directory to look modules up in.
    pub fn add_search_path(&mut self, path: Vec<u8>)
        ensures
            final(self).view_of() == (RegistryView {
                search_paths: old(self).view_of().search_paths.push(path@),
                ..old(self).view_of()
            }),
    {
        let ghost old_view = self.view_of();
        self.search_paths.push(path);
        proof {
            assert(self.view_of().search_paths =~= old_view.search_paths.push(path@));
            assert(self.view_of().available =~= old_view.available);
            assert(self.view_of().cache =~= old_view.cache);
        }
    }

    /// Install a module: make it loadable through the search paths.
    pub fn install_module(&mut self, m: Module)
        ensures
            final(self).view_of() == (RegistryView {
                available: old(self).view_of().available.push(spec_module_view(m)),
                ..old(self).view_of()
            }),
    {
        let ghost old_view = self.view_of();
        self.available.push(m);
        proof {
            assert(self.view_of().available =~= old_view.available.push(spec_module_view(m)));
            assert(self.view_of().search_paths =~= old_view.search_paths);
            assert(self.view_of().cache =~= old_view.cache);
        }
    }

    /// The module at a cache slot.
    pub fn module(&self, i: usize) -> (r: &Module)
        requires
            i < self.view_of().cache.len(),
        ensures
            spec_module_view(*r) == self.view_of().cache[i as int],
    {
        &self.registry[i]
    }

    /// Find the first installed or cached module with this name.
    fn find_in(mods: &Vec<Module>, name: &Vec<u8>) -> (r: Option<usize>)
        ensures
            ({
                let views = Seq::new(mods@.len(), |i: int| spec_module_view(mods@[i]));
                match r {
                    Option::Some(i) => i < mods@.len() && spec_find_module(views, name@)
                        == Option::Some(i as int),
                    Option::None => spec_find_module(views, name@) is None,
                }
            }),
    {
        let ghost views = Seq::new(mods@.len(), |i: int| spec_module_view(mods@[i]));
        proof {
            assert(views.skip(0) =~= views);
        }
        let mut i: usize = 0;
        while i < mods.len()
            invariant
                0 <= i <= mods@.len(),
                views == Seq::new(mods@.len(), |k: int| spec_module_view(mods@[k])),
                views.len() == mods@.len(),
                forall|j: int| 0 <= j < i ==> views[j].name != name@,
                (match spec_find_module(views.skip(i as int), name@) {
                    Option::Some(k) => spec_find_module(views, name@) == Option::Some(
                        k + i,
                    ),
                    Option::None => spec_find_module(views, name@) is None,
                }),
            decreases mods@.len() - i,
        {
            proof {
                assert(views.skip(i as int)[0] == views[i as int]);
            }
            if bytes_eq(&mods[i].name, name) {
                proof {
                    assert(views[i as int].name == name@);
                    assert(spec_find_module(views.skip(i as int), name@) == Option::Some(0int));
                }
                return Option::Some(i);
            }
            proof {
                assert(views.skip(i as int).drop_first() =~= views.skip(i + 1));
                lemma_find_skip_step(views, i as int, name@);
            }
            i = i + 1;
        }
        proof {
            assert(views.skip(i as int) =~= Seq::<ModuleView>::empty());
        }
        Option::None
    }

    /// Load the module with the given name: serve it from the cache, or
    /// find it under the search paths, cache it and return it. When no
    /// location holds it, report every path that was tried.
    pub fn get_module(&mut self, module_name: &Vec<u8>) -> (r: Result<usize, ModuleLoadError>)
        ensures
            ({
                let step = spec_step_get(old(self).view_of(), module_name@);
                &&& final(self).view_of() == step.0
                &&& match r {
                    Result::Ok(i) => {
                        &&& step.1 is Ok
                        &&& i < final(self).view_of().cache.len()
                        &&& final(self).view_of().cache[i as int] == step.1->Ok_0
                    },
                    Result::Err(ModuleLoadError::LoadFailed(es)) => {
                        &&& step.1 is Err
                        &&& es.deep_view() == step.1->Err_0
                    },
                }
            }),
    {
        let ghost old_view = self.view_of();
        match Self::find_in(&self.registry, module_name) {
            Option::Some(i) => {
                proof {
                    assert(self.view_of() == old_view);
                }
                Ok(i)
            },
            Option::None => {
                match Self::find_in(&self.available, module_name) {
                    Option::Some(j) => {
                        let m = clone_module(&self.available[j]);
                        let idx = self.registry.len();
                        self.registry.push(m);
                        proof {
                            assert(self.view_of().cache =~= old_view.cache.push(
                                old_view.available[j as int],
                            ));
                            assert(self.view_of().available =~= old_view.available);
                            assert(self.view_of().search_paths =~= old_view.search_paths);
                            assert(self.view_of() == spec_step_get(old_view, module_name@).0);
                        }
                        Ok(idx)
                    },
                    Option::None => {
                        let mut errors: Vec<Vec<u8>> = Vec::new();
                        let mut i: usize = 0;
                        while i < self.search_paths.len()
                            invariant
                                0 <= i <= self.search_paths@.len(),
                                errors.deep_view() =~= spec_attempted_paths(
                                    self.view_of().search_paths,
                                    module_name@,
                                ).take(i as int),
                                self.view_of().search_paths.len() == self.search_paths@.len(),
                            decreases self.search_paths@.len() - i,
                        {
                            let ghost prev = errors.deep_view();
                            let mut attempt = clone_bytes(&self.search_paths[i]);
                            let slash = vstd::slice::slice_to_vec("/".as_bytes());
                            extend_bytes(&mut attempt, &slash);
                            extend_bytes(&mut attempt, module_name);
                            let ext = vstd::slice::slice_to_vec(".so".as_bytes());
                            extend_bytes(&mut attempt, &ext);
                            proof {
                                assert(self.view_of().search_paths[i as int]
                                    == self.search_paths@[i as int]@);
                                assert(attempt@ =~= spec_attempt_path(
                                    self.view_of().search_paths[i as int],
                                    module_name@,
                                ));
                            }
                            errors.push(attempt);
                            i = i + 1;
                            proof {
                                let ap = spec_attempted_paths(
                                    self.view_of().search_paths,
                                    module_name@,
                                );
                                assert(errors.deep_view() =~= prev.push(attempt@));
                                assert(ap.take(i as int).drop_last() =~= ap.take(i - 1));
                                assert(ap[i - 1] == spec_attempt_path(
                                    self.view_of().search_paths[i - 1],
                                    module_name@,
                                ));
                                assert(errors.deep_view() =~= ap.take(i as int));
                            }
                        }
                        proof {
                            assert(spec_attempted_paths(
                                self.view_of().search_paths,
                                module_name@,
                            ).take(self.search_paths@.len() as int) =~= spec_attempted_paths(
                                self.view_of().search_paths,
                                module_name@,
                            ));
                        }
                        Err(ModuleLoadError::LoadFailed(errors))
                    },
                }
            },
        }
    }
}

/// Step property of the first-match search under `skip`.
proof fn lemma_find_skip_step(views: Seq<ModuleView>, i: int, name: Seq<u8>)
    requires
        0 <= i < views.len(),
        views[i].name != name,
    ensures
        spec_find_module(views.skip(i), name) == match spec_find_module(
            views.skip(i + 1),
            name,
        ) {
            Option::Some(k) => Option::Some(k + 1),
            Option::None => Option::None::<int>,
        },
{
    assert(views.skip(i)[0] == views[i]);
    assert(views.skip(i).drop_first() =~= views.skip(i + 1));
}

/// A field-for-field copy of a command's behaviour.
fn clone_kind(k: &CommandKind) -> (r: CommandKind)
    ensures
        spec_kind_view(r) == spec_kind_view(*k),
{
    match k {
        CommandKind::Reverse => CommandKind::Reverse,
        CommandKind::ReverseResource => CommandKind::ReverseResource,
        CommandKind::Concat => CommandKind::Concat,
        CommandKind::Constant(v) => CommandKind::Constant(clone_bytes(v)),
        CommandKind::Fail(v) => CommandKind::Fail(clone_bytes(v)),
    }
}

/// A field-for-field copy of a module.
fn clone_module(m: &Module) -> (r: Module)
    ensures
        spec_module_view(r) == spec_module_view(*m),
{
    let mut commands: Vec<ModuleCommand> = Vec::new();
    let mut i: usize = 0;
    while i < m.commands.len()
        invariant
            0 <= i <= m.commands@.len(),
            commands@.len() == i,
            forall|j: int|
                0 <= j < i ==> crate::module::spec_command_model(commands@[j])
                    == crate::module::spec_command_model(m.commands@[j]),
        decreases m.commands@.len() - i,
    {
        let c = ModuleCommand {
            name: clone_bytes(&m.commands[i].name),
            kind: clone_kind(&m.commands[i].kind),
        };
        commands.push(c);
        i = i + 1;
    }
    let r = Module { name: clone_bytes(&m.name), commands };
    proof {
        assert(spec_module_view(r).commands =~= spec_module_view(*m).commands);
        assert(spec_module_view(r) == spec_module_view(*m));
    }
    r
}

} // verus!
