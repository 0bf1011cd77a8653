use std::sync::atomic::{AtomicUsize, Ordering};
use std::sync::{Arc, Mutex};

use apio::wiring::Wiring;
use apio::{
    parse_filtergraph, process, resolve, run, Frame, FrameContext, ModuleLoad, Plugin,
    PluginFeatures, PluginManager, ResolutionError, Walk,
};
use y4m::{Colorspace, Ratio};

fn context() -> FrameContext {
    FrameContext::new(Colorspace::C420, Ratio::new(25, 1), 4, 2, Ratio::new(1, 1), 8, 1)
}

fn frame(tag: u8) -> Frame {
    Frame::new(vec![tag], vec![], vec![], context())
}

fn tags(frames: &[Frame]) -> Vec<Vec<u8>> {
    frames.iter().map(|f| f.get_y_plane().clone()).collect()
}

type Calls = Arc<Mutex<Vec<String>>>;

#[derive(Clone, Copy, PartialEq)]
enum Kind {
    /// Hands the frame back.
    Identity,
    /// Appends a mark to the first plane.
    Mark(u8),
    /// Hands the frame back twice.
    Twice,
    /// Gives nothing.
    Drop,
    /// Takes all frames at once and joins their first planes into one frame.
    Join,
}

struct Filter {
    name: &'static str,
    kind: Kind,
    calls: Calls,
}

impl Filter {
    fn note(&self, frames: &[&Frame], args: Option<&str>) {
        let seen: Vec<Vec<u8>> = frames.iter().map(|f| f.get_y_plane().clone()).collect();
        self.calls.lock().unwrap().push(format!("{} {:?} {:?}", self.name, seen, args));
    }
}

impl Plugin for Filter {
    fn name(&self) -> &'static str {
        self.name
    }

    fn get_frame(&self, frame: Frame, args: &Option<&str>) -> Vec<Frame> {
        self.note(&[&frame], *args);
        match self.kind {
            Kind::Identity | Kind::Join => vec![frame],
            Kind::Mark(m) => {
                let mut y = frame.get_y_plane().clone();
                y.push(m);
                vec![Frame::new(y, vec![], vec![], frame.get_context())]
            }
            Kind::Twice => vec![frame.duplicate(), frame],
            Kind::Drop => vec![],
        }
    }

    fn get_frames(&self, frames: Vec<Frame>, args: Option<&str>) -> Vec<Frame> {
        self.note(&frames.iter().collect::<Vec<_>>(), args);
        let mut y = Vec::new();
        for f in &frames {
            y.extend_from_slice(f.get_y_plane());
        }
        vec![Frame::new(y, vec![], vec![], context())]
    }

    fn features(&self) -> Vec<PluginFeatures> {
        if self.kind == Kind::Join {
            vec![PluginFeatures::MultiInput(2)]
        } else {
            vec![]
        }
    }
}

fn registry(filters: &[(&'static str, Kind)], calls: &Calls) -> PluginManager<(), Filter> {
    let mut reg = PluginManager::new();
    for (name, kind) in filters {
        let filter = Filter { name, kind: *kind, calls: calls.clone() };
        reg.load_plugin(ModuleLoad::Constructed((), filter)).unwrap();
    }
    reg
}

fn seen(calls: &Calls) -> Vec<String> {
    calls.lock().unwrap().clone()
}

#[test]
fn an_identity_filter_yields_every_frame_in_order() {
    let calls = Calls::default();
    let reg = registry(&[("same", Kind::Identity)], &calls);
    let graph = parse_filtergraph("same").unwrap();
    let resolved = resolve(&graph, &reg).unwrap();
    for n in [0u8, 1, 2, 7] {
        let input: Vec<Frame> = (0..n).map(frame).collect();
        let out = run(&resolved, input);
        assert_eq!(out.len(), n as usize);
        assert_eq!(tags(&out), (0..n).map(|t| vec![t]).collect::<Vec<_>>());
    }
}

#[test]
fn an_identity_filter_with_pads_yields_every_frame_in_order() {
    let calls = Calls::default();
    let reg = registry(&[("same", Kind::Identity)], &calls);
    let graph = parse_filtergraph("[in]same{k=v}[out]").unwrap();
    let resolved = resolve(&graph, &reg).unwrap();
    let out = run(&resolved, vec![frame(3), frame(1), frame(2)]);
    assert_eq!(tags(&out), vec![vec![3], vec![1], vec![2]]);
    assert_eq!(
        seen(&calls),
        vec![
            "same [[3]] Some(\"k=v\")",
            "same [[1]] Some(\"k=v\")",
            "same [[2]] Some(\"k=v\")",
        ]
    );
}

/// A frame source that counts what is pulled from it.
struct Source {
    left: Vec<Frame>,
    reads: AtomicUsize,
}

impl Source {
    fn next(&mut self) -> Option<Frame> {
        self.reads.fetch_add(1, Ordering::SeqCst);
        if self.left.is_empty() {
            None
        } else {
            Some(self.left.remove(0))
        }
    }
}

#[test]
fn an_unknown_filter_fails_before_any_frame_is_pulled() {
    let calls = Calls::default();
    let reg = registry(&[("known", Kind::Identity)], &calls);
    let graph = parse_filtergraph("known,missing").unwrap();
    let mut source = Source { left: vec![frame(1), frame(2)], reads: AtomicUsize::new(0) };
    let mut out = Vec::new();
    match resolve(&graph, &reg) {
        Err(e) => assert_eq!(e, ResolutionError::UnknownFilterName),
        Ok(resolved) => {
            while let Some(f) = source.next() {
                out.extend(process(&resolved, f));
            }
        }
    }
    assert_eq!(source.reads.load(Ordering::SeqCst), 0);
    assert!(out.is_empty());
    assert!(seen(&calls).is_empty());
}

#[test]
fn an_unloaded_registry_knows_no_filter() {
    let calls = Calls::default();
    let mut reg = registry(&[("a", Kind::Identity)], &calls);
    reg.unload();
    let graph = parse_filtergraph("a").unwrap();
    assert_eq!(resolve(&graph, &reg).err(), Some(ResolutionError::UnknownFilterName));
}

#[test]
fn filters_of_a_chain_run_in_order() {
    let calls = Calls::default();
    let reg = registry(&[("a", Kind::Mark(10)), ("b", Kind::Mark(20))], &calls);
    let graph = parse_filtergraph("a{x},b,a").unwrap();
    let resolved = resolve(&graph, &reg).unwrap();
    let out = process(&resolved, frame(1));
    assert_eq!(tags(&out), vec![vec![1, 10, 20, 10]]);
    assert_eq!(
        seen(&calls),
        vec!["a [[1]] Some(\"x\")", "b [[1, 10]] None", "a [[1, 10, 20]] None"]
    );
}

#[test]
fn a_filter_that_gives_two_frames_feeds_both_to_the_next() {
    let calls = Calls::default();
    let reg = registry(&[("twice", Kind::Twice), ("mark", Kind::Mark(9))], &calls);
    let graph = parse_filtergraph("twice,mark,twice").unwrap();
    let resolved = resolve(&graph, &reg).unwrap();
    let out = run(&resolved, vec![frame(1), frame(2)]);
    assert_eq!(
        tags(&out),
        vec![
            vec![1, 9],
            vec![1, 9],
            vec![1, 9],
            vec![1, 9],
            vec![2, 9],
            vec![2, 9],
            vec![2, 9],
            vec![2, 9],
        ]
    );
}

#[test]
fn a_filter_that_gives_nothing_ends_the_walk() {
    let calls = Calls::default();
    let reg = registry(&[("drop", Kind::Drop), ("mark", Kind::Mark(9))], &calls);
    let graph = parse_filtergraph("drop,mark").unwrap();
    let resolved = resolve(&graph, &reg).unwrap();
    assert!(run(&resolved, vec![frame(1), frame(2)]).is_empty());
    assert_eq!(seen(&calls), vec!["drop [[1]] None", "drop [[2]] None"]);
}

#[test]
fn a_pad_links_one_chain_to_the_next() {
    let calls = Calls::default();
    let reg = registry(
        &[("scale", Kind::Mark(1)), ("sharpen", Kind::Mark(2)), ("overlay", Kind::Mark(3))],
        &calls,
    );
    let graph =
        parse_filtergraph("[in]scale{w=640:h=480}[mid],sharpen;[mid]overlay[out]").unwrap();
    let resolved = resolve(&graph, &reg).unwrap();
    assert_eq!(resolved.chain_count(), 2);
    assert!(resolved.is_entry(0));
    assert!(!resolved.is_entry(1));
    assert_eq!(resolved.targets(0), &vec![1]);
    assert_eq!(resolved.targets(1), &Vec::<usize>::new());
    assert_eq!((resolved.order_at(0), resolved.order_at(1)), (0, 1));
    let out = run(&resolved, vec![frame(7), frame(8)]);
    assert_eq!(tags(&out), vec![vec![7, 1, 2, 3], vec![8, 1, 2, 3]]);
}

#[test]
fn chains_run_after_their_feeders_whatever_the_order_of_declaration() {
    let calls = Calls::default();
    let reg = registry(&[("a", Kind::Mark(1)), ("b", Kind::Mark(2)), ("c", Kind::Mark(3))], &calls);
    let graph = parse_filtergraph("[y]c;[x]b[y];a[x]").unwrap();
    let resolved = resolve(&graph, &reg).unwrap();
    assert_eq!(
        (resolved.order_at(0), resolved.order_at(1), resolved.order_at(2)),
        (2, 1, 0)
    );
    assert!(resolved.is_entry(2));
    assert!(!resolved.is_entry(0));
    let out = process(&resolved, frame(0));
    assert_eq!(tags(&out), vec![vec![0, 1, 2, 3]]);
}

#[test]
fn a_pad_with_two_readers_fans_out() {
    let calls = Calls::default();
    let reg = registry(&[("a", Kind::Mark(1)), ("b", Kind::Mark(2)), ("c", Kind::Mark(3))], &calls);
    let graph = parse_filtergraph("a[x];[x]b;[x]c").unwrap();
    let resolved = resolve(&graph, &reg).unwrap();
    assert_eq!(resolved.targets(0), &vec![1, 2]);
    let out = run(&resolved, vec![frame(5), frame(6)]);
    assert_eq!(tags(&out), vec![vec![5, 1, 2], vec![5, 1, 3], vec![6, 1, 2], vec![6, 1, 3]]);
}

#[test]
fn fan_in_needs_a_filter_that_takes_several_frames() {
    let calls = Calls::default();
    let reg = registry(
        &[("a", Kind::Mark(1)), ("b", Kind::Mark(2)), ("one", Kind::Identity), ("join", Kind::Join)],
        &calls,
    );
    let graph = parse_filtergraph("[s]a[x];[t]b[x];[x]one").unwrap();
    assert_eq!(resolve(&graph, &reg).err(), Some(ResolutionError::FanInNotSupported));
    let graph = parse_filtergraph("[s]a[x],b[x];[x]one").unwrap();
    assert!(resolve(&graph, &reg).is_ok());
    let graph = parse_filtergraph("[s]a[x];[t]b[x];[x]join{m}").unwrap();
    let resolved = resolve(&graph, &reg).unwrap();
    let out = process(&resolved, frame(4));
    assert_eq!(tags(&out), vec![vec![4, 1, 4, 2]]);
    assert_eq!(seen(&calls).last().unwrap(), "join [[4, 1], [4, 2]] Some(\"m\")");
}

#[test]
fn two_pads_fed_by_one_chain_each_are_no_fan_in() {
    let calls = Calls::default();
    let reg = registry(&[("a", Kind::Mark(1)), ("b", Kind::Mark(2)), ("one", Kind::Identity)], &calls);
    let graph = parse_filtergraph("[s]a[x];[t]b[y];[x:y]one").unwrap();
    let resolved = resolve(&graph, &reg).unwrap();
    assert_eq!(tags(&process(&resolved, frame(4))), vec![vec![4, 1], vec![4, 2]]);
    assert_eq!(
        seen(&calls),
        vec!["a [[4]] None", "b [[4]] None", "one [[4, 1]] None", "one [[4, 2]] None"]
    );
}

#[test]
fn the_wiring_of_a_graph() {
    let graph = parse_filtergraph("[in]a[x];b[x:y];[x]c[z];[y:z]d;e").unwrap();
    let wiring = Wiring::of(graph.chains());
    assert_eq!(wiring.chain_count(), 5);
    let fed_by: Vec<Vec<usize>> =
        (0..5).map(|j| (0..5).filter(|i| wiring.feeds(*i, j)).collect()).collect();
    assert_eq!(fed_by, vec![vec![], vec![], vec![0, 1], vec![1, 2], vec![]]);
    assert_eq!((0..5).map(|j| wiring.is_fed(j)).collect::<Vec<_>>(), [false, false, true, true, false]);
    assert_eq!(
        (0..5).map(|j| wiring.has_fan_in(j)).collect::<Vec<_>>(),
        [false, false, true, false, false]
    );
    assert_eq!(
        (0..5).map(|j| wiring.is_entry(j)).collect::<Vec<_>>(),
        [true, true, false, false, false]
    );
    assert_eq!(wiring.targets_of(1), vec![2, 3]);
    assert_eq!(wiring.targets_of(3), Vec::<usize>::new());
    assert_eq!(wiring.schedule(), Some(vec![0, 1, 2, 3, 4]));
    let graph = parse_filtergraph("[b]x[c];[a]x[b];x[a];[c]x").unwrap();
    assert_eq!(Wiring::of(graph.chains()).schedule(), Some(vec![2, 1, 0, 3]));
    let graph = parse_filtergraph("[b]x[a];[a]x[b];x").unwrap();
    assert_eq!(Wiring::of(graph.chains()).schedule(), None);
}

#[test]
fn an_unknown_name_is_reported_before_the_wiring() {
    let calls = Calls::default();
    let reg = registry(&[("a", Kind::Identity)], &calls);
    let graph = parse_filtergraph("[x]a[y];[y]a[x];[y]nope").unwrap();
    assert_eq!(resolve(&graph, &reg).err(), Some(ResolutionError::UnknownFilterName));
}

#[test]
fn a_cycle_of_pads_is_refused() {
    let calls = Calls::default();
    let reg = registry(&[("a", Kind::Identity), ("join", Kind::Join)], &calls);
    let graph = parse_filtergraph("[x]a[y];[y]a[x]").unwrap();
    assert_eq!(resolve(&graph, &reg).err(), Some(ResolutionError::CyclicWiring));
    let graph = parse_filtergraph("[z]a[x];[x]a[y];[y]a[z]").unwrap();
    assert_eq!(resolve(&graph, &reg).err(), Some(ResolutionError::CyclicWiring));
    let graph = parse_filtergraph("a[p];[p]a[q];[q]a[r];[r]a[q]").unwrap();
    assert_eq!(resolve(&graph, &reg).err(), Some(ResolutionError::FanInNotSupported));
    let graph = parse_filtergraph("a[p];[p]a[q];[q]join[r];[r]a[q]").unwrap();
    assert_eq!(resolve(&graph, &reg).err(), Some(ResolutionError::CyclicWiring));
}

#[test]
fn a_pad_inside_one_chain_wires_nothing() {
    let calls = Calls::default();
    let reg = registry(&[("a", Kind::Mark(1)), ("b", Kind::Mark(2))], &calls);
    let graph = parse_filtergraph("a[x],[x]b").unwrap();
    let resolved = resolve(&graph, &reg).unwrap();
    assert!(resolved.is_entry(0));
    assert!(resolved.targets(0).is_empty());
    assert_eq!(tags(&process(&resolved, frame(0))), vec![vec![0, 1, 2]]);
}

#[test]
fn only_the_first_chain_without_input_pads_takes_source_frames() {
    let calls = Calls::default();
    let reg = registry(&[("a", Kind::Mark(1)), ("b", Kind::Mark(2)), ("c", Kind::Mark(3))], &calls);
    let graph = parse_filtergraph("[in]a;b;c").unwrap();
    let resolved = resolve(&graph, &reg).unwrap();
    assert!(resolved.is_entry(0));
    assert!(resolved.is_entry(1));
    assert!(!resolved.is_entry(2));
    assert_eq!(tags(&process(&resolved, frame(0))), vec![vec![0, 1], vec![0, 2]]);
}

#[test]
fn an_empty_graph_outputs_nothing() {
    let calls = Calls::default();
    let reg = registry(&[("a", Kind::Identity)], &calls);
    let graph = apio::FilterGraph::new(vec![]);
    let resolved = resolve(&graph, &reg).unwrap();
    assert_eq!(resolved.chain_count(), 0);
    assert!(run(&resolved, vec![frame(1)]).is_empty());
}

#[test]
fn a_chain_without_filters_hands_frames_through() {
    let calls = Calls::default();
    let reg = registry(&[("a", Kind::Identity)], &calls);
    let graph = apio::FilterGraph::new(vec![apio::Chain { nodes: vec![] }]);
    let resolved = resolve(&graph, &reg).unwrap();
    assert_eq!(tags(&run(&resolved, vec![frame(1), frame(2)])), vec![vec![1], vec![2]]);
}

#[test]
fn the_walk_hands_out_one_frame_per_call() {
    let calls = Calls::default();
    let reg = registry(&[("a", Kind::Identity), ("b", Kind::Identity)], &calls);
    let graph = parse_filtergraph("a,b{z}").unwrap();
    let resolved = resolve(&graph, &reg).unwrap();
    let mut walk = Walk::begin(&resolved, frame(1));
    assert!(!walk.is_done());
    assert_eq!(walk.place(), (0, 0));
    assert_eq!(tags(&walk.take()), vec![vec![1]]);
    walk.supply(vec![frame(10), frame(11)]);
    assert_eq!(walk.place(), (0, 1));
    assert_eq!(resolved.node(0, 1).args(), Some("z"));
    assert_eq!(resolved.node(0, 1).slot(), 1);
    assert!(!resolved.node(0, 1).multi_input());
    assert_eq!(tags(&walk.take()), vec![vec![10]]);
    walk.supply(vec![frame(20)]);
    assert!(!walk.is_done());
    assert_eq!(walk.place(), (0, 1));
    assert_eq!(tags(&walk.take()), vec![vec![11]]);
    walk.supply(vec![]);
    assert!(walk.is_done());
    assert_eq!(tags(&walk.finish()), vec![vec![20]]);
    assert!(seen(&calls).is_empty());
}

#[test]
fn the_walk_hands_all_frames_to_a_filter_that_takes_several() {
    let calls = Calls::default();
    let reg = registry(&[("twice", Kind::Twice), ("join", Kind::Join)], &calls);
    let graph = parse_filtergraph("twice,join").unwrap();
    let resolved = resolve(&graph, &reg).unwrap();
    assert!(resolved.node(0, 1).multi_input());
    let mut walk = Walk::begin(&resolved, frame(1));
    walk.take();
    walk.supply(vec![frame(2), frame(3)]);
    assert_eq!(walk.place(), (0, 1));
    assert_eq!(tags(&walk.take()), vec![vec![2], vec![3]]);
    walk.supply(vec![frame(9)]);
    assert!(walk.is_done());
    assert_eq!(tags(&walk.finish()), vec![vec![9]]);
    let out = process(&resolved, frame(6));
    assert_eq!(tags(&out), vec![vec![6, 6]]);
}

#[test]
fn frames_keep_planes_and_context() {
    let c = FrameContext::new(Colorspace::C444p10, Ratio::new(30000, 1001), 640, 480, Ratio::new(4, 3), 10, 2);
    assert_eq!(c.get_width(), 640);
    assert_eq!(c.get_height(), 480);
    assert_eq!(c.get_bit_depth(), 10);
    assert_eq!(c.get_bytes_per_sample(), 2);
    assert_eq!((c.get_framerate().num, c.get_framerate().den), (30000, 1001));
    assert_eq!((c.get_pixel_aspect().num, c.get_pixel_aspect().den), (4, 3));
    assert!(matches!(c.get_colorspace(), Colorspace::C444p10));
    let f = Frame::new(vec![1, 2], vec![3], vec![4, 5, 6], c);
    let g = f.duplicate();
    assert_eq!(g.get_y_plane(), &vec![1, 2]);
    assert_eq!(g.get_u_plane(), &vec![3]);
    assert_eq!(g.get_v_plane(), &vec![4, 5, 6]);
    assert_eq!(g.get_context().get_width(), 640);
    assert_eq!(f.get_y_plane(), g.get_y_plane());
}

#[test]
fn the_same_run_twice_gives_the_same_output() {
    let calls = Calls::default();
    let reg = registry(
        &[("a", Kind::Mark(1)), ("twice", Kind::Twice), ("join", Kind::Join), ("b", Kind::Mark(2))],
        &calls,
    );
    let graph = parse_filtergraph("a[x];[x]twice[y];[x]b[y];[y]join,a").unwrap();
    let resolved = resolve(&graph, &reg).unwrap();
    let first = run(&resolved, vec![frame(1), frame(2), frame(3)]);
    let second = run(&resolved, vec![frame(1), frame(2), frame(3)]);
    assert_eq!(tags(&first), tags(&second));
    assert_eq!(
        tags(&first),
        vec![
            vec![1, 1, 1, 1, 1, 1, 2, 1],
            vec![2, 1, 2, 1, 2, 1, 2, 1],
            vec![3, 1, 3, 1, 3, 1, 2, 1],
        ]
    );
}

#[test]
fn the_example_plugin_yields_every_frame_in_order() {
    let mut reg: PluginManager<(), apio::ExamplePlugin> = PluginManager::new();
    reg.load_plugin(ModuleLoad::Constructed((), apio::ExamplePlugin)).unwrap();
    let graph = parse_filtergraph("[in]example{any=thing}[out]").unwrap();
    let resolved = resolve(&graph, &reg).unwrap();
    for n in [0u8, 1, 5, 40] {
        let out = run(&resolved, (0..n).map(frame).collect());
        assert_eq!(tags(&out), (0..n).map(|t| vec![t]).collect::<Vec<_>>());
    }
}
