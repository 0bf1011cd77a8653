use std::sync::{Arc, Mutex};

use apio::plugin::ExamplePlugin;
use apio::{
    Frame, FrameContext, ModuleLoad, Plugin, PluginFeatures, PluginLoadError, PluginManager,
    Teardown,
};

type Log = Arc<Mutex<Vec<String>>>;

fn entries(log: &Log) -> Vec<String> {
    log.lock().unwrap().clone()
}

/// A module handle that records its release.
struct Module {
    label: &'static str,
    log: Log,
}

impl Drop for Module {
    fn drop(&mut self) {
        self.log.lock().unwrap().push(format!("release {}", self.label));
    }
}

/// A plugin that records its lifecycle.
struct Recorder {
    name: &'static str,
    label: &'static str,
    multi: bool,
    log: Log,
}

impl Plugin for Recorder {
    fn name(&self) -> &'static str {
        self.name
    }

    fn on_plugin_load(&self) {
        self.log.lock().unwrap().push(format!("load {}", self.label));
    }

    fn on_plugin_unload(&self) {
        self.log.lock().unwrap().push(format!("unload {}", self.label));
    }

    fn get_frame(&self, frame: Frame, _args: &Option<&str>) -> Vec<Frame> {
        vec![frame]
    }

    fn get_frames(&self, frames: Vec<Frame>, _args: Option<&str>) -> Vec<Frame> {
        frames
    }

    fn features(&self) -> Vec<PluginFeatures> {
        if self.multi {
            vec![PluginFeatures::OpenCl, PluginFeatures::MultiInput(2)]
        } else {
            vec![PluginFeatures::OpenCl]
        }
    }
}

impl Drop for Recorder {
    fn drop(&mut self) {
        self.log.lock().unwrap().push(format!("drop {}", self.label));
    }
}

fn module(label: &'static str, log: &Log) -> Module {
    Module { label, log: log.clone() }
}

fn plugin(name: &'static str, label: &'static str, log: &Log) -> Recorder {
    Recorder { name, label, multi: false, log: log.clone() }
}

fn constructed(name: &'static str, label: &'static str, log: &Log) -> ModuleLoad<Module, Recorder> {
    ModuleLoad::Constructed(module(label, log), plugin(name, label, log))
}

#[test]
fn a_new_registry_is_empty() {
    let reg: PluginManager<Module, Recorder> = PluginManager::new();
    assert!(reg.is_empty());
    assert_eq!(reg.slots(), 0);
    assert!(reg.get_plugin("scale").is_none());
    assert_eq!(reg.slot_of("scale"), None);
}

#[test]
fn loading_records_the_plugin_under_its_name() {
    let log = Log::default();
    let mut reg = PluginManager::new();
    assert_eq!(reg.load_plugin(constructed("scale", "m0", &log)), Ok(()));
    assert_eq!(reg.load_plugin(constructed("crop", "m1", &log)), Ok(()));
    assert!(!reg.is_empty());
    assert_eq!(reg.slots(), 2);
    assert_eq!(reg.slot_of("scale"), Some(0));
    assert_eq!(reg.slot_of("crop"), Some(1));
    assert_eq!(reg.get_plugin("crop").unwrap().label, "m1");
    assert_eq!(reg.plugin(0).unwrap().label, "m0");
    assert!(reg.plugin(2).is_none());
    assert!(reg.get_plugin("blur").is_none());
    assert_eq!(entries(&log), vec!["load m0", "load m1"]);
    std::mem::forget(reg);
}

#[test]
fn a_missing_entry_point_leaves_the_registry_unchanged() {
    let log = Log::default();
    let mut reg: PluginManager<Module, Recorder> = PluginManager::new();
    reg.load_plugin(constructed("scale", "m0", &log)).unwrap();
    let r = reg.load_plugin(ModuleLoad::EntryPointMissing(module("m1", &log)));
    assert_eq!(r, Err(PluginLoadError::SymbolMissing));
    assert_eq!(reg.slots(), 1);
    assert_eq!(reg.slot_of("scale"), Some(0));
    assert_eq!(entries(&log), vec!["load m0", "release m1"]);
    assert_eq!(reg.unload(), vec![Teardown::Unload(0), Teardown::Release(0)]);
}

#[test]
fn a_missing_entry_point_on_an_empty_registry() {
    let log = Log::default();
    let mut reg: PluginManager<Module, Recorder> = PluginManager::new();
    let r = reg.load_plugin(ModuleLoad::EntryPointMissing(module("m0", &log)));
    assert_eq!(r, Err(PluginLoadError::SymbolMissing));
    assert!(reg.is_empty());
    assert_eq!(reg.unload(), vec![]);
}

#[test]
fn a_module_that_cannot_be_opened() {
    let mut reg: PluginManager<Module, Recorder> = PluginManager::new();
    assert_eq!(reg.load_plugin(ModuleLoad::OpenFailed), Err(PluginLoadError::ModuleOpenFailed));
    assert!(reg.is_empty());
}

#[test]
fn a_constructor_that_fails() {
    let log = Log::default();
    let mut reg: PluginManager<Module, Recorder> = PluginManager::new();
    let r = reg.load_plugin(ModuleLoad::ConstructorFailed(module("m0", &log)));
    assert_eq!(r, Err(PluginLoadError::ConstructorFailed));
    assert!(reg.is_empty());
    assert_eq!(entries(&log), vec!["release m0"]);
}

#[test]
fn unload_invokes_every_hook_before_any_release() {
    let log = Log::default();
    let mut reg = PluginManager::new();
    reg.load_plugin(constructed("a", "m0", &log)).unwrap();
    reg.load_plugin(constructed("b", "m1", &log)).unwrap();
    reg.load_plugin(constructed("c", "m2", &log)).unwrap();
    log.lock().unwrap().clear();
    let report = reg.unload();
    assert_eq!(
        report,
        vec![
            Teardown::Unload(0),
            Teardown::Unload(1),
            Teardown::Unload(2),
            Teardown::Release(0),
            Teardown::Release(1),
            Teardown::Release(2),
        ]
    );
    assert_eq!(
        entries(&log),
        vec![
            "unload m0",
            "unload m1",
            "unload m2",
            "drop m0",
            "drop m1",
            "drop m2",
            "release m0",
            "release m1",
            "release m2",
        ]
    );
    assert!(reg.is_empty());
    assert!(reg.get_plugin("a").is_none());
}

#[test]
fn each_unload_hook_runs_exactly_once() {
    let log = Log::default();
    let mut reg = PluginManager::new();
    reg.load_plugin(constructed("a", "m0", &log)).unwrap();
    reg.load_plugin(constructed("b", "m1", &log)).unwrap();
    reg.unload();
    assert_eq!(reg.unload(), vec![]);
    drop(reg);
    let all = entries(&log);
    for label in ["m0", "m1"] {
        assert_eq!(all.iter().filter(|e| **e == format!("unload {label}")).count(), 1);
        assert_eq!(all.iter().filter(|e| **e == format!("release {label}")).count(), 1);
        let unload = all.iter().position(|e| *e == format!("unload {label}")).unwrap();
        let release = all.iter().position(|e| *e == format!("release {label}")).unwrap();
        assert!(unload < release);
    }
}

#[test]
fn the_most_recently_loaded_plugin_holds_a_name() {
    let log = Log::default();
    let mut reg = PluginManager::new();
    reg.load_plugin(constructed("scale", "old", &log)).unwrap();
    reg.load_plugin(constructed("crop", "other", &log)).unwrap();
    reg.load_plugin(constructed("scale", "new", &log)).unwrap();
    assert_eq!(reg.slots(), 3);
    assert_eq!(reg.get_plugin("scale").unwrap().label, "new");
    assert_eq!(reg.slot_of("scale"), Some(2));
    assert!(reg.plugin(0).is_none());
    assert_eq!(
        entries(&log),
        vec!["load old", "load other", "load new", "unload old", "drop old"]
    );
    log.lock().unwrap().clear();
    assert_eq!(
        reg.unload(),
        vec![
            Teardown::Unload(1),
            Teardown::Unload(2),
            Teardown::Release(0),
            Teardown::Release(1),
            Teardown::Release(2),
        ]
    );
    assert_eq!(
        entries(&log),
        vec![
            "unload other",
            "unload new",
            "drop other",
            "drop new",
            "release old",
            "release other",
            "release new",
        ]
    );
}

#[test]
fn register_records_what_it_is_given() {
    let log = Log::default();
    let mut reg = PluginManager::new();
    reg.register(module("m0", &log), plugin("ignored", "p0", &log), "alias", true);
    assert_eq!(reg.slot_of("alias"), Some(0));
    assert_eq!(reg.slot_of("ignored"), None);
    assert!(reg.multi_input(0));
    assert_eq!(entries(&log), Vec::<String>::new());
    reg.unload();
}

#[test]
fn features_are_read_when_the_plugin_is_loaded() {
    let log = Log::default();
    let mut reg = PluginManager::new();
    let many = Recorder { name: "mix", label: "m0", multi: true, log: log.clone() };
    reg.load_plugin(ModuleLoad::Constructed(module("m0", &log), many)).unwrap();
    reg.load_plugin(constructed("one", "m1", &log)).unwrap();
    assert!(reg.multi_input(0));
    assert!(!reg.multi_input(1));
    reg.unload();
}

#[test]
fn the_default_registry_is_empty() {
    let reg: PluginManager<Module, Recorder> = PluginManager::default();
    assert!(reg.is_empty());
}

#[test]
fn the_example_plugin_hands_frames_on() {
    let c = FrameContext::new(
        y4m::Colorspace::Cmono,
        y4m::Ratio::new(24, 1),
        2,
        1,
        y4m::Ratio::new(1, 1),
        8,
        1,
    );
    let p = ExamplePlugin::default();
    assert_eq!(p.name(), "example");
    assert!(p.features().is_empty());
    let out = p.get_frame(Frame::new(vec![1, 2], vec![], vec![], c), &None);
    assert_eq!(out.len(), 1);
    assert_eq!(out[0].get_y_plane(), &vec![1, 2]);
    assert!(p.get_frames(vec![Frame::new(vec![3], vec![], vec![], c)], None).is_empty());
    let mut reg: PluginManager<(), ExamplePlugin> = PluginManager::new();
    reg.load_plugin(ModuleLoad::Constructed((), p)).unwrap();
    assert_eq!(reg.slot_of("example"), Some(0));
    assert_eq!(reg.unload(), vec![Teardown::Unload(0), Teardown::Release(0)]);
}
