//! A streaming video-filter pipeline: a textual filtergraph language, a
//! registry of plugins loaded from native modules, and an executor that
//! drives frames through the resolved graph.
//!
//! * [`parse_filtergraph`] turns a text such as
//!   `"[in]scale{w=640:h=480}[mid],sharpen;[mid]overlay[out]"` into a
//!   [`FilterGraph`]; [`FilterGraph::render`] writes a graph out again.
//! * [`PluginManager`] records the plugins that native modules gave, and
//!   gives plugins and modules up in a fixed order.
//! * [`resolve`] binds a graph to the plugins of a registry and works out
//!   the wiring of its pads; [`process`] and [`run`] walk frames through the
//!   resolved graph.
//!
//! Every function states what it computes over mathematical views of its
//! arguments, and the laws that tie the functions together are proved next
//! to them.
pub mod exec;
pub mod graph;
pub mod parse;
pub mod plugin;
pub mod registry;
pub mod render;
pub mod resolve;
pub mod text;
pub mod wiring;

pub use exec::{process, run, Walk};
pub use graph::{Chain, FilterGraph, FilterInvocation};
pub use parse::{parse_filtergraph, parse_pads, ParseError};
pub use plugin::{ExamplePlugin, Frame, FrameContext, Plugin, PluginArgs, PluginFeatures};
pub use registry::{ModuleLoad, PluginLoadError, PluginManager, Teardown};
pub use resolve::{resolve, FilterNode, ResolutionError, ResolvedGraph};
pub use wiring::Wiring;
