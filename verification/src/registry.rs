//! The plugin registry: which plugins are loaded, under which names, and in
//! which order they and their modules are given up.
//!
//! Opening a native module and calling its entry point is the caller's part;
//! the registry is told how that went, invokes the lifecycle hooks, and owns
//! plugin and module from then on. A module is held until `unload`, and
//! `unload` releases modules only after every plugin is gone.
//!
//! Plugins stand in slots, in load order; a hash map from names to slots
//! finds a plugin by its name. Of two plugins that declare one name, the
//! one loaded last holds the name: the other has its unload hook invoked
//! and is dropped when the second is recorded.
use vstd::hash_map::StringHashMap;
use vstd::prelude::*;
use crate::plugin::{has_multi_input, Plugin};

verus! {

/// Why a module gave no plugin.
#[derive(Debug, Clone, Copy, PartialEq, Eq, Structural)]
pub enum PluginLoadError {
    /// The native code image could not be opened.
    ModuleOpenFailed,
    /// The image exports no entry point.
    SymbolMissing,
    /// The entry point was called and signalled failure.
    ConstructorFailed,
}

/// How opening a module and calling its entry point went: what the caller
/// of `load_plugin` reports.
pub enum ModuleLoad<M, P> {
    /// The image could not be opened.
    OpenFailed,
    /// The image was opened, and exports no entry point.
    EntryPointMissing(M),
    /// The entry point was called and constructed nothing.
    ConstructorFailed(M),
    /// The entry point constructed a plugin.
    Constructed(M, P),
}

/// One step of giving the registry's contents up.
#[derive(Debug, Clone, Copy, PartialEq, Eq, Structural)]
pub enum Teardown {
    /// The unload hook of the plugin in this slot was invoked.
    Unload(usize),
    /// The module with this number, counted in load order, was released.
    Release(usize),
}

/// A slot of the registry as mathematical values. Slot `i` belongs to the
/// `i`-th module that gave a plugin.
pub struct SlotView {
    pub name: Seq<char>,
    pub multi_input: bool,
    /// Whether the slot still holds its plugin; a plugin leaves its slot when
    /// a later one is loaded under the same name.
    pub live: bool,
}

struct Slot<P> {
    name: &'static str,
    multi_input: bool,
    plugin: Option<P>,
}

impl<P> View for Slot<P> {
    type V = SlotView;

    closed spec fn view(&self) -> SlotView {
        SlotView { name: self.name@, multi_input: self.multi_input, live: self.plugin is Some }
    }
}

spec fn slot_views<P>(slots: Seq<Slot<P>>) -> Seq<SlotView> {
    Seq::new(slots.len(), |i: int| slots[i]@)
}

/// No two live slots have the same name.
pub open spec fn names_distinct(reg: Seq<SlotView>) -> bool {
    forall|i: int, j: int|
        0 <= i < j < reg.len() && (#[trigger] reg[i]).live && (#[trigger] reg[j]).live
            ==> reg[i].name != reg[j].name
}

/// The last live slot named `name`, if there is one.
pub open spec fn find_slot(reg: Seq<SlotView>, name: Seq<char>) -> Option<int>
    decreases reg.len(),
{
    if reg.len() == 0 {
        None
    } else if reg.last().live && reg.last().name == name {
        Some(reg.len() - 1)
    } else {
        find_slot(reg.drop_last(), name)
    }
}

/// The slots after the plugins named `name` have left theirs.
pub open spec fn vacated(reg: Seq<SlotView>, name: Seq<char>) -> Seq<SlotView> {
    Seq::new(
        reg.len(),
        |i: int|
            if reg[i].name == name {
                SlotView { name: reg[i].name, multi_input: reg[i].multi_input, live: false }
            } else {
                reg[i]
            },
    )
}

/// The slots after a plugin was recorded under `name`: a plugin that held
/// the name leaves its slot, and the new one takes a new slot at the end.
pub open spec fn registered(reg: Seq<SlotView>, name: Seq<char>, multi_input: bool) -> Seq<
    SlotView,
> {
    vacated(reg, name).push(SlotView { name, multi_input, live: true })
}

/// The unload steps of `reg`: one for each live slot, in load order.
pub open spec fn unloads(reg: Seq<SlotView>) -> Seq<Teardown>
    decreases reg.len(),
{
    if reg.len() == 0 {
        Seq::empty()
    } else if reg.last().live {
        unloads(reg.drop_last()).push(Teardown::Unload((reg.len() - 1) as usize))
    } else {
        unloads(reg.drop_last())
    }
}

/// The release steps of `n` modules, in load order.
pub open spec fn releases(n: nat) -> Seq<Teardown> {
    Seq::new(n, |i: int| Teardown::Release(i as usize))
}

/// What `unload` does to `reg`: every unload hook first, then every release.
pub open spec fn teardown_plan(reg: Seq<SlotView>) -> Seq<Teardown> {
    unloads(reg) + releases(reg.len())
}

/// The registry. `M` is the handle of a loaded module: dropping it releases
/// the module. `P` is the type of the plugins.
///
/// A registry that is dropped with plugins in it drops them before their
/// modules, but invokes no hook: call `unload` first.
pub struct PluginManager<M, P> {
    plugins: Vec<Slot<P>>,
    loaded_libraries: Vec<M>,
    /// For each name that a live plugin holds, the slot of that plugin.
    index: StringHashMap<usize>,
}

/// `index` maps each name to the slot that the name finds, and no other
/// name to anything.
spec fn indexes(index: Map<Seq<char>, usize>, reg: Seq<SlotView>) -> bool {
    forall|name: Seq<char>| #[trigger]
        find_slot(reg, name) == (if index.contains_key(name) {
            Some(index[name] as int)
        } else {
            None
        })
}

impl<M, P> View for PluginManager<M, P> {
    type V = Seq<SlotView>;

    closed spec fn view(&self) -> Seq<SlotView> {
        slot_views(self.plugins@)
    }
}

/// Ends the life of a value.
fn discard<T>(value: T) {
}

impl<M, P> PluginManager<M, P> {
    /// What every registry made by `new` and changed by its methods is:
    /// each slot has its module, and no two live slots share a name.
    pub closed spec fn wf(&self) -> bool {
        &&& self.plugins@.len() == self.loaded_libraries@.len()
        &&& names_distinct(slot_views(self.plugins@))
        &&& indexes(self.index@, slot_views(self.plugins@))
    }

    /// What well-formedness says in terms of the view.
    pub proof fn lemma_wf(&self)
        requires
            self.wf(),
        ensures
            self.module_list().len() == self@.len(),
            names_distinct(self@),
            forall|i: int|
                0 <= i < self@.len() ==> (#[trigger] self@[i]).live == (self.plugin_at(i)
                    is Some),
    {
    }

    /// The plugin in `slot`, if the slot is live.
    pub closed spec fn plugin_at(&self, slot: int) -> Option<P> {
        if 0 <= slot < self.plugins@.len() {
            self.plugins@[slot].plugin
        } else {
            None
        }
    }

    /// The modules that the registry holds, in load order. The plugin of
    /// slot `i` came from module `i`.
    pub closed spec fn module_list(&self) -> Seq<M> {
        self.loaded_libraries@
    }

    /// A registry without plugins and modules.
    pub fn new() -> (r: Self)
        ensures
            r.wf(),
            r@ == Seq::<SlotView>::empty(),
            r.module_list() == Seq::<M>::empty(),
    {
        let r = PluginManager {
            plugins: Vec::new(),
            loaded_libraries: Vec::new(),
            index: StringHashMap::new(),
        };
        proof {
            assert(r@ =~= Seq::<SlotView>::empty());
        }
        r
    }

    /// Whether the registry holds neither plugin nor module.
    pub fn is_empty(&self) -> (b: bool)
        ensures
            b == (self@.len() == 0),
    {
        self.plugins.len() == 0
    }

    /// Number of slots, live or not.
    pub fn slots(&self) -> (n: usize)
        ensures
            n == self@.len(),
    {
        self.plugins.len()
    }
}

impl<M, P> Default for PluginManager<M, P> {
    fn default() -> (r: Self)
        ensures
            r.wf(),
            r@ == Seq::<SlotView>::empty(),
            r.module_list() == Seq::<M>::empty(),
    {
        Self::new()
    }
}

/// Looking a name up never reaches a slot that is not live or is named
/// otherwise.
proof fn lemma_find_slot(reg: Seq<SlotView>, name: Seq<char>)
    ensures
        match find_slot(reg, name) {
            Some(i) => 0 <= i < reg.len() && reg[i].live && reg[i].name == name && forall|j: int|
                i < j < reg.len() ==> !((#[trigger] reg[j]).live && reg[j].name == name),
            None => forall|j: int|
                0 <= j < reg.len() ==> !((#[trigger] reg[j]).live && reg[j].name == name),
        },
    decreases reg.len(),
{
    if reg.len() > 0 && !(reg.last().live && reg.last().name == name) {
        let front = reg.drop_last();
        lemma_find_slot(front, name);
        match find_slot(front, name) {
            Some(i) => {
                assert forall|j: int| i < j < reg.len() implies !((#[trigger] reg[j]).live
                    && reg[j].name == name) by {
                    if j < front.len() {
                        assert(reg[j] == front[j]);
                    }
                }
            },
            None => {
                assert forall|j: int| 0 <= j < reg.len() implies !((#[trigger] reg[j]).live
                    && reg[j].name == name) by {
                    if j < front.len() {
                        assert(reg[j] == front[j]);
                    }
                }
            },
        }
    }
}

/// A lookup finds the slot that a scan from the end meets first.
proof fn lemma_find_slot_at(reg: Seq<SlotView>, name: Seq<char>, m: int)
    requires
        0 <= m <= reg.len(),
        forall|j: int| m <= j < reg.len() ==> !((#[trigger] reg[j]).live && reg[j].name == name),
        m > 0 ==> reg[m - 1].live && reg[m - 1].name == name,
    ensures
        find_slot(reg, name) == (if m > 0 {
            Some(m - 1)
        } else {
            None
        }),
    decreases reg.len(),
{
    if reg.len() > 0 && m < reg.len() {
        lemma_find_slot_at(reg.drop_last(), name, m);
    }
}

/// Recording a plugin keeps live names distinct, and makes the new slot the
/// one that its name finds.
pub proof fn lemma_registered(reg: Seq<SlotView>, name: Seq<char>, multi_input: bool)
    requires
        names_distinct(reg),
    ensures
        names_distinct(registered(reg, name, multi_input)),
        find_slot(registered(reg, name, multi_input), name) == Some(reg.len() as int),
        forall|other: Seq<char>|
            other != name ==> #[trigger] find_slot(registered(reg, name, multi_input), other)
                == find_slot(reg, other),
{
    let after = registered(reg, name, multi_input);
    assert forall|other: Seq<char>| other != name implies #[trigger] find_slot(after, other)
        == find_slot(reg, other) by {
        assert(after.drop_last() =~= vacated(reg, name));
        lemma_find_slot(reg, other);
        match find_slot(reg, other) {
            Some(i) => {
                lemma_find_slot_at(vacated(reg, name), other, i + 1);
            },
            None => {
                lemma_find_slot_at(vacated(reg, name), other, 0);
            },
        }
    }
}

impl<M, P: Plugin> PluginManager<M, P> {
    /// The slot of the plugin recorded under `name`.
    pub fn slot_of(&self, name: &str) -> (r: Option<usize>)
        requires
            self.wf(),
        ensures
            match r {
                Some(i) => find_slot(self@, name@) == Some(i as int) && i < self@.len()
                    && self.plugin_at(i as int) is Some,
                None => find_slot(self@, name@) is None,
            },
    {
        proof {
            lemma_find_slot(self@, name@);
        }
        match self.index.get(name) {
            Some(slot) => Some(*slot),
            None => None,
        }
    }

    /// The plugin recorded under `name`; `None` when there is none.
    pub fn get_plugin(&self, name: &str) -> (r: Option<&P>)
        requires
            self.wf(),
        ensures
            match r {
                Some(p) => find_slot(self@, name@) is Some && self.plugin_at(
                    find_slot(self@, name@)->Some_0,
                ) == Some(*p),
                None => find_slot(self@, name@) is None,
            },
    {
        match self.slot_of(name) {
            Some(i) => self.plugins[i].plugin.as_ref(),
            None => None,
        }
    }

    /// The plugin in `slot`; `None` when the slot is not live.
    pub fn plugin(&self, slot: usize) -> (r: Option<&P>)
        ensures
            match r {
                Some(p) => self.plugin_at(slot as int) == Some(*p),
                None => self.plugin_at(slot as int) is None,
            },
            r is Some <==> slot < self@.len() && self@[slot as int].live,
    {
        if slot < self.plugins.len() {
            self.plugins[slot].plugin.as_ref()
        } else {
            None
        }
    }

    /// Whether the plugin of `slot` declared multi-frame input when it was
    /// loaded.
    pub fn multi_input(&self, slot: usize) -> (b: bool)
        requires
            slot < self@.len(),
        ensures
            b == self@[slot as int].multi_input,
    {
        self.plugins[slot].multi_input
    }

    /// Records `plugin`, which `module` gave, under `name`. A plugin that
    /// held the name until now has its unload hook invoked and is dropped;
    /// its module stays.
    pub fn register(&mut self, module: M, plugin: P, name: &'static str, multi_input: bool)
        requires
            old(self).wf(),
        ensures
            final(self).wf(),
            final(self)@ == registered(old(self)@, name@, multi_input),
            final(self).module_list() == old(self).module_list().push(module),
            final(self).plugin_at(old(self)@.len() as int) == Some(plugin),
            forall|i: int|
                0 <= i < old(self)@.len() ==> #[trigger] final(self).plugin_at(i) == (if old(
                    self,
                )@[i].name == name@ {
                    None
                } else {
                    old(self).plugin_at(i)
                }),
    {
        proof {
            lemma_registered(self@, name@, multi_input);
            lemma_find_slot(self@, name@);
        }
        let ghost before = self@;
        match self.slot_of(name) {
            Some(i) => {
                match &self.plugins[i].plugin {
                    Some(p) => {
                        p.on_plugin_unload();
                    },
                    None => {},
                }
                let held = self.plugins[i].name;
                let held_multi = self.plugins[i].multi_input;
                self.plugins.set(i, Slot { name: held, multi_input: held_multi, plugin: None });
                proof {
                    assert(self@ =~= vacated(before, name@));
                }
            },
            None => {
                proof {
                    assert(self@ =~= vacated(before, name@));
                }
            },
        }
        let slot = self.plugins.len();
        self.plugins.push(Slot { name, multi_input, plugin: Some(plugin) });
        self.loaded_libraries.push(module);
        self.index.insert(name.to_owned(), slot);
        proof {
            assert(self@ =~= registered(before, name@, multi_input));
        }
    }

    /// Takes in what opening a module gave.
    ///
    /// On a failure the module, if there is one, is released at once, the
    /// matching error is returned, and the registry stays as it was. On a
    /// plugin, its load hook is invoked, its name and features are asked
    /// for, and it is recorded under its name as `register` does: of two
    /// plugins with one name the one loaded last holds the name.
    pub fn load_plugin(&mut self, load: ModuleLoad<M, P>) -> (r: Result<(), PluginLoadError>)
        requires
            old(self).wf(),
        ensures
            final(self).wf(),
            match load {
                ModuleLoad::OpenFailed => r == Err::<(), PluginLoadError>(
                    PluginLoadError::ModuleOpenFailed,
                ) && *final(self) == *old(self),
                ModuleLoad::EntryPointMissing(_) => r == Err::<(), PluginLoadError>(
                    PluginLoadError::SymbolMissing,
                ) && *final(self) == *old(self),
                ModuleLoad::ConstructorFailed(_) => r == Err::<(), PluginLoadError>(
                    PluginLoadError::ConstructorFailed,
                ) && *final(self) == *old(self),
                ModuleLoad::Constructed(module, plugin) => r is Ok && final(self).module_list()
                    == old(self).module_list().push(module) && final(self).plugin_at(
                    old(self)@.len() as int,
                ) == Some(plugin) && exists|name: Seq<char>, multi_input: bool|
                    final(self)@ == registered(old(self)@, name, multi_input) && forall|i: int|
                        0 <= i < old(self)@.len() ==> #[trigger] final(self).plugin_at(i) == (if old(
                            self,
                        )@[i].name == name {
                            None
                        } else {
                            old(self).plugin_at(i)
                        }),
            },
    {
        match load {
            ModuleLoad::OpenFailed => Err(PluginLoadError::ModuleOpenFailed),
            ModuleLoad::EntryPointMissing(module) => {
                discard(module);
                Err(PluginLoadError::SymbolMissing)
            },
            ModuleLoad::ConstructorFailed(module) => {
                discard(module);
                Err(PluginLoadError::ConstructorFailed)
            },
            ModuleLoad::Constructed(module, plugin) => {
                plugin.on_plugin_load();
                let name = plugin.name();
                let features = plugin.features();
                let multi_input = has_multi_input(&features);
                self.register(module, plugin, name, multi_input);
                Ok(())
            },
        }
    }

    /// Unloads every plugin and releases every module: first the unload
    /// hook of each live plugin is invoked, in load order; then the plugins
    /// are dropped; only then are the modules released, in load order.
    /// Returns the hooks invoked and the modules released, in the order in
    /// which that was done.
    pub fn unload(&mut self) -> (report: Vec<Teardown>)
        requires
            old(self).wf(),
        ensures
            final(self).wf(),
            report@ == teardown_plan(old(self)@),
            final(self)@ == Seq::<SlotView>::empty(),
            final(self).module_list() == Seq::<M>::empty(),
    {
        let ghost before = self@;
        let mut slots: Vec<Slot<P>> = Vec::new();
        let mut modules: Vec<M> = Vec::new();
        core::mem::swap(&mut self.plugins, &mut slots);
        core::mem::swap(&mut self.loaded_libraries, &mut modules);
        self.index.clear();
        proof {
            assert(self@ =~= Seq::<SlotView>::empty());
            assert(self.module_list() =~= Seq::<M>::empty());
        }
        let mut report: Vec<Teardown> = Vec::new();
        let mut i: usize = 0;
        while i < slots.len()
            invariant
                i <= slots.len(),
                before == slot_views(slots@),
                report@ == unloads(before.subrange(0, i as int)),
            decreases slots.len() - i,
        {
            proof {
                assert(before.subrange(0, i + 1).drop_last() =~= before.subrange(0, i as int));
            }
            match &slots[i].plugin {
                Some(p) => {
                    p.on_plugin_unload();
                    report.push(Teardown::Unload(i));
                },
                None => {},
            }
            i = i + 1;
        }
        proof {
            assert(before.subrange(0, slots.len() as int) =~= before);
        }
        discard(slots);
        let ghost hooks = report@;
        let mut k: usize = 0;
        while k < modules.len()
            invariant
                k <= modules.len(),
                report@ == hooks + releases(k as nat),
            decreases modules.len() - k,
        {
            report.push(Teardown::Release(k));
            proof {
                assert(report@ =~= hooks + releases((k + 1) as nat));
            }
            k = k + 1;
        }
        discard(modules);
        report
    }
}

/// The order of a teardown: the unload hook of every live plugin is invoked
/// exactly once, every module is released exactly once, and no module is
/// released before the last unload hook has returned.
pub proof fn lemma_teardown_order(reg: Seq<SlotView>)
    requires
        reg.len() <= usize::MAX,
    ensures
        forall|i: int|
            0 <= i < reg.len() && (#[trigger] reg[i]).live ==> teardown_plan(reg).contains(
                Teardown::Unload(i as usize),
            ),
        forall|m: int|
            0 <= m < reg.len() ==> #[trigger] teardown_plan(reg).contains(
                Teardown::Release(m as usize),
            ),
        teardown_plan(reg).no_duplicates(),
        forall|k: int|
            0 <= k < teardown_plan(reg).len() ==> match #[trigger] teardown_plan(reg)[k] {
                Teardown::Unload(i) => i < reg.len() && reg[i as int].live,
                Teardown::Release(m) => m < reg.len(),
            },
        forall|a: int, b: int|
            0 <= a < teardown_plan(reg).len() && 0 <= b < teardown_plan(reg).len()
                && #[trigger] teardown_plan(reg)[a] is Release
                && #[trigger] teardown_plan(reg)[b] is Unload ==> b < a,
{
    let plan = teardown_plan(reg);
    let hooks = unloads(reg);
    lemma_unloads(reg);
    assert forall|i: int| 0 <= i < reg.len() && (#[trigger] reg[i]).live implies plan.contains(
        Teardown::Unload(i as usize),
    ) by {
        let k = choose|k: int| 0 <= k < hooks.len() && hooks[k] == Teardown::Unload(i as usize);
        assert(plan[k] == Teardown::Unload(i as usize));
    }
    assert forall|m: int| 0 <= m < reg.len() implies #[trigger] plan.contains(
        Teardown::Release(m as usize),
    ) by {
        assert(plan[hooks.len() + m] == Teardown::Release(m as usize));
    }
    assert forall|a: int, b: int| 0 <= a < b < plan.len() implies plan[a] != plan[b] by {
        if b >= hooks.len() && a >= hooks.len() {
            assert(plan[a] == Teardown::Release((a - hooks.len()) as usize));
            assert(plan[b] == Teardown::Release((b - hooks.len()) as usize));
        }
    }
}

/// The unload steps name the live slots, each once, in rising order.
proof fn lemma_unloads(reg: Seq<SlotView>)
    requires
        reg.len() <= usize::MAX,
    ensures
        unloads(reg).len() <= reg.len(),
        forall|k: int|
            0 <= k < unloads(reg).len() ==> match #[trigger] unloads(reg)[k] {
                Teardown::Unload(i) => i < reg.len() && reg[i as int].live,
                Teardown::Release(_) => false,
            },
        forall|a: int, b: int|
            0 <= a < b < unloads(reg).len() ==> unloads(reg)[a]->Unload_0 < unloads(
                reg,
            )[b]->Unload_0,
        forall|i: int|
            0 <= i < reg.len() && (#[trigger] reg[i]).live ==> exists|k: int|
                0 <= k < unloads(reg).len() && unloads(reg)[k] == Teardown::Unload(i as usize),
    decreases reg.len(),
{
    if reg.len() > 0 {
        let front = reg.drop_last();
        lemma_unloads(front);
        let hooks = unloads(reg);
        let inner = unloads(front);
        assert forall|k: int| 0 <= k < hooks.len() implies match #[trigger] hooks[k] {
            Teardown::Unload(i) => i < reg.len() && reg[i as int].live,
            Teardown::Release(_) => false,
        } by {
            if k < inner.len() {
                assert(hooks[k] == inner[k]);
                match inner[k] {
                    Teardown::Unload(i) => {
                        assert(reg[i as int] == front[i as int]);
                    },
                    Teardown::Release(_) => {},
                }
            }
        }
        assert forall|a: int, b: int| 0 <= a < b < hooks.len() implies hooks[a]->Unload_0
            < hooks[b]->Unload_0 by {
            assert(hooks[a] == inner[a]);
            if b < inner.len() {
                assert(hooks[b] == inner[b]);
            }
        }
        assert forall|i: int| 0 <= i < reg.len() && (#[trigger] reg[i]).live implies exists|k: int|
            0 <= k < hooks.len() && hooks[k] == Teardown::Unload(i as usize) by {
            if i < front.len() {
                assert(front[i] == reg[i]);
                let k = choose|k: int|
                    0 <= k < inner.len() && inner[k] == Teardown::Unload(i as usize);
                assert(hooks[k] == inner[k]);
            } else {
                assert(hooks[hooks.len() - 1] == Teardown::Unload(i as usize));
            }
        }
    }
}

} // verus!
