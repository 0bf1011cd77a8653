//! Resolution: a filtergraph bound to the plugins of a registry, with its
//! wiring worked out, before any frame is touched.
use vstd::prelude::*;
use crate::graph::{chain_views, Chain, FilterGraph, NodeView};
use crate::plugin::Plugin;
use crate::registry::{find_slot, PluginManager, SlotView};
use crate::wiring::{
    acyclic, as_ints, fan_in, fed, is_entry, is_greedy, is_topological, targets, Wiring,
};

verus! {

/// Why a filtergraph cannot run on a registry.
#[derive(Debug, Clone, Copy, PartialEq, Eq, Structural)]
pub enum ResolutionError {
    /// A filter name that no loaded plugin declares.
    UnknownFilterName,
    /// Several chains feed one input pad of a chain whose first filter
    /// takes one frame at a time.
    FanInNotSupported,
    /// The pads wire chains into a cycle.
    CyclicWiring,
}

/// A resolved filter invocation as mathematical values.
pub struct NodePlan {
    /// The registry slot of the plugin.
    pub slot: int,
    /// Whether the plugin takes several frames per call.
    pub multi_input: bool,
    pub args: Option<Seq<char>>,
}

/// A resolved chain as mathematical values.
pub struct ChainPlan {
    pub nodes: Seq<NodePlan>,
    /// Whether source frames enter the chain.
    pub entry: bool,
    /// The chains that take this chain's frames; where there is none, the
    /// frames are output.
    pub targets: Seq<int>,
}

/// A resolved graph as mathematical values.
pub struct Plan {
    pub chains: Seq<ChainPlan>,
    /// The order in which the chains run for each source frame.
    pub order: Seq<int>,
}

/// Every filter name of `g` is the name of a live plugin of `reg`.
pub open spec fn all_known(g: Seq<Seq<NodeView>>, reg: Seq<SlotView>) -> bool {
    forall|c: int, k: int|
        0 <= c < g.len() && 0 <= k < g[c].len() ==> find_slot(reg, (#[trigger] g[c][k]).name)
            is Some
}

/// What a filter invocation resolves to.
pub open spec fn node_plan(reg: Seq<SlotView>, n: NodeView) -> NodePlan {
    let slot = find_slot(reg, n.name)->Some_0;
    NodePlan { slot, multi_input: reg[slot].multi_input, args: n.args }
}

/// What the invocations of a chain resolve to.
pub open spec fn node_plans(reg: Seq<SlotView>, c: Seq<NodeView>) -> Seq<NodePlan> {
    Seq::new(c.len(), |k: int| node_plan(reg, c[k]))
}

/// What chain `c` of `g` resolves to.
pub open spec fn chain_plan(g: Seq<Seq<NodeView>>, reg: Seq<SlotView>, c: int) -> ChainPlan {
    ChainPlan { nodes: node_plans(reg, g[c]), entry: is_entry(g, c), targets: targets(g, c) }
}

/// What the chains of `g` resolve to.
pub open spec fn chain_plans(g: Seq<Seq<NodeView>>, reg: Seq<SlotView>) -> Seq<ChainPlan> {
    Seq::new(g.len(), |c: int| chain_plan(g, reg, c))
}

/// The first filter of chain `j` takes several frames per call.
pub open spec fn receives_many(g: Seq<Seq<NodeView>>, reg: Seq<SlotView>, j: int) -> bool {
    g[j].len() > 0 && node_plan(reg, g[j][0]).multi_input
}

/// Every chain with an input pad that several chains feed begins with a
/// filter that takes several frames per call.
pub open spec fn fan_in_supported(g: Seq<Seq<NodeView>>, reg: Seq<SlotView>) -> bool {
    forall|j: int| 0 <= j < g.len() && #[trigger] fan_in(g, j) ==> receives_many(g, reg, j)
}

/// A plan that the executor can walk: the order and the targets name
/// chains, the order names each once, and every slot is one of `slots`.
pub open spec fn plan_wf(plan: Plan, slots: int) -> bool {
    &&& plan.order.len() == plan.chains.len()
    &&& plan.order.no_duplicates()
    &&& forall|k: int| 0 <= k < plan.order.len() ==> 0 <= #[trigger] plan.order[k] < plan.chains.len()
    &&& forall|c: int, t: int|
        0 <= c < plan.chains.len() && 0 <= t < plan.chains[c].targets.len() ==> 0 <= (
        #[trigger] plan.chains[c].targets[t]) < plan.chains.len()
    &&& forall|c: int, k: int|
        0 <= c < plan.chains.len() && 0 <= k < plan.chains[c].nodes.len() ==> 0 <= (
        #[trigger] plan.chains[c].nodes[k]).slot < slots
}

/// A graph of one chain with one filter resolves to a plan in which that
/// filter takes the source frames and feeds the output, whatever pads it
/// names.
pub proof fn lemma_single_filter_graph(g: Seq<Seq<NodeView>>, reg: Seq<SlotView>, order: Seq<int>)
    requires
        g.len() == 1,
        g[0].len() == 1,
        is_topological(g, order),
    ensures
        order == seq![0int],
        chain_plans(g, reg).len() == 1,
        chain_plans(g, reg)[0].nodes.len() == 1,
        chain_plans(g, reg)[0].entry,
        chain_plans(g, reg)[0].targets.len() == 0,
{
    reveal_with_fuel(crate::wiring::targets_below, 2);
    assert(0 <= order[0] < 1);
    assert(order =~= seq![0int]);
    assert(!fed(g, 0));
    assert(is_entry(g, 0));
}

/// A filter invocation bound to its plugin: the plugin's slot in the
/// registry, and the raw argument text.
#[derive(Debug, Clone, Copy)]
pub struct FilterNode<'a> {
    slot: usize,
    multi_input: bool,
    args: Option<&'a str>,
}

impl<'a> View for FilterNode<'a> {
    type V = NodePlan;

    closed spec fn view(&self) -> NodePlan {
        NodePlan {
            slot: self.slot as int,
            multi_input: self.multi_input,
            args: match self.args {
                Some(a) => Some(a@),
                None => None,
            },
        }
    }
}

impl<'a> FilterNode<'a> {
    /// The registry slot of the plugin.
    pub fn slot(&self) -> (s: usize)
        ensures
            s == self@.slot,
    {
        self.slot
    }

    /// Whether the plugin takes several frames per call.
    pub fn multi_input(&self) -> (b: bool)
        ensures
            b == self@.multi_input,
    {
        self.multi_input
    }

    /// The raw argument text.
    pub fn args(&self) -> (a: Option<&'a str>)
        ensures
            match a {
                Some(t) => self@.args == Some(t@),
                None => self@.args is None,
            },
    {
        self.args
    }
}

/// A chain bound to its plugins, with its place in the wiring.
#[derive(Debug)]
pub struct ResolvedChain<'a> {
    nodes: Vec<FilterNode<'a>>,
    entry: bool,
    targets: Vec<usize>,
}

impl<'a> View for ResolvedChain<'a> {
    type V = ChainPlan;

    closed spec fn view(&self) -> ChainPlan {
        ChainPlan {
            nodes: Seq::new(self.nodes@.len(), |k: int| self.nodes@[k]@),
            entry: self.entry,
            targets: as_ints(self.targets@),
        }
    }
}

/// A filtergraph bound to the registry that it was resolved against. While
/// it lives the registry cannot change.
pub struct ResolvedGraph<'a, 'r, M, P> {
    registry: &'r PluginManager<M, P>,
    chains: Vec<ResolvedChain<'a>>,
    order: Vec<usize>,
}

impl<'a, 'r, M, P> View for ResolvedGraph<'a, 'r, M, P> {
    type V = Plan;

    closed spec fn view(&self) -> Plan {
        Plan {
            chains: Seq::new(self.chains@.len(), |c: int| self.chains@[c]@),
            order: as_ints(self.order@),
        }
    }
}

impl<'a, 'r, M, P> ResolvedGraph<'a, 'r, M, P> {
    /// The registry that the graph is bound to.
    pub closed spec fn registry(&self) -> &'r PluginManager<M, P> {
        self.registry
    }

    /// What `resolve` establishes: the plan can be walked, and every slot
    /// that it names holds a plugin.
    pub closed spec fn wf(&self) -> bool {
        &&& plan_wf(self@, self.registry@.len() as int)
        &&& forall|c: int, k: int|
            0 <= c < self.chains@.len() && 0 <= k < self.chains@[c].nodes@.len()
                ==> self.registry.plugin_at((#[trigger] self.chains@[c].nodes@[k]).slot as int)
                is Some
    }
}

impl<'a, 'r, M, P: Plugin> ResolvedGraph<'a, 'r, M, P> {
    /// A well-formed graph has a plan that can be walked.
    pub proof fn lemma_wf(&self)
        requires
            self.wf(),
        ensures
            plan_wf(self@, self.registry()@.len() as int),
    {
    }

    /// Number of chains.
    pub fn chain_count(&self) -> (n: usize)
        ensures
            n == self@.chains.len(),
    {
        self.chains.len()
    }

    /// Number of places in the running order.
    pub fn order_len(&self) -> (n: usize)
        ensures
            n == self@.order.len(),
    {
        self.order.len()
    }

    /// The chain that runs at place `k`.
    pub fn order_at(&self, k: usize) -> (c: usize)
        requires
            k < self@.order.len(),
        ensures
            c == self@.order[k as int],
    {
        self.order[k]
    }

    /// Number of filters of chain `c`.
    pub fn node_count(&self, c: usize) -> (n: usize)
        requires
            c < self@.chains.len(),
        ensures
            n == self@.chains[c as int].nodes.len(),
    {
        self.chains[c].nodes.len()
    }

    /// Filter `k` of chain `c`.
    pub fn node(&self, c: usize, k: usize) -> (node: FilterNode<'a>)
        requires
            c < self@.chains.len(),
            k < self@.chains[c as int].nodes.len(),
        ensures
            node@ == self@.chains[c as int].nodes[k as int],
    {
        self.chains[c].nodes[k]
    }

    /// Whether source frames enter chain `c`.
    pub fn is_entry(&self, c: usize) -> (b: bool)
        requires
            c < self@.chains.len(),
        ensures
            b == self@.chains[c as int].entry,
    {
        self.chains[c].entry
    }

    /// The chains that take the frames of chain `c`.
    pub fn targets(&self, c: usize) -> (t: &Vec<usize>)
        requires
            c < self@.chains.len(),
        ensures
            as_ints(t@) == self@.chains[c as int].targets,
    {
        &self.chains[c].targets
    }

    /// The plugin of filter `k` of chain `c`.
    pub fn plugin(&self, c: usize, k: usize) -> (p: &'r P)
        requires
            self.wf(),
            c < self@.chains.len(),
            k < self@.chains[c as int].nodes.len(),
        ensures
            self.registry().plugin_at(self@.chains[c as int].nodes[k as int].slot) == Some(*p),
    {
        let slot = self.chains[c].nodes[k].slot;
        proof {
            assert(self@.chains[c as int].nodes[k as int] == self.chains@[c as int].nodes@[k as int]@);
        }
        self.registry.plugin(slot).unwrap()
    }
}

/// Binds the invocations of chain `c` to their plugins.
fn resolve_nodes<'a, M, P: Plugin>(
    chain: &Chain<'a>,
    registry: &PluginManager<M, P>,
) -> (r: Option<Vec<FilterNode<'a>>>)
    requires
        registry.wf(),
    ensures
        match r {
            Some(nodes) => {
                &&& forall|k: int|
                    0 <= k < chain@.len() ==> find_slot(registry@, (#[trigger] chain@[k]).name)
                        is Some
                &&& Seq::new(nodes@.len(), |k: int| nodes@[k]@) == node_plans(registry@, chain@)
                &&& forall|k: int|
                    0 <= k < nodes@.len() ==> (#[trigger] nodes@[k]).slot < registry@.len()
                        && registry.plugin_at(nodes@[k].slot as int) is Some
            },
            None => exists|k: int|
                0 <= k < chain@.len() && find_slot(registry@, (#[trigger] chain@[k]).name)
                    is None,
        },
{
    let mut nodes: Vec<FilterNode<'a>> = Vec::new();
    let mut k: usize = 0;
    while k < chain.nodes.len()
        invariant
            registry.wf(),
            k <= chain.nodes.len(),
            nodes.len() == k,
            forall|i: int|
                0 <= i < k ==> find_slot(registry@, (#[trigger] chain@[i]).name) is Some,
            forall|i: int| 0 <= i < k ==> (#[trigger] nodes@[i])@ == node_plan(registry@, chain@[i]),
            forall|i: int|
                0 <= i < k ==> (#[trigger] nodes@[i]).slot < registry@.len()
                    && registry.plugin_at(nodes@[i].slot as int) is Some,
        decreases chain.nodes.len() - k,
    {
        let node = &chain.nodes[k];
        proof {
            assert(chain@[k as int] == node@);
        }
        match registry.slot_of(node.name) {
            None => {
                return None;
            },
            Some(slot) => {
                let multi_input = registry.multi_input(slot);
                nodes.push(FilterNode { slot, multi_input, args: node.args });
            },
        }
        k = k + 1;
    }
    proof {
        assert(Seq::new(nodes@.len(), |k: int| nodes@[k]@) =~= node_plans(registry@, chain@));
    }
    Some(nodes)
}

/// Binds `graph` to the plugins of `registry` and works out its wiring.
///
/// Fails with `UnknownFilterName` where a filter name is not the name of a
/// loaded plugin; else with `FanInNotSupported` where two chains or more
/// feed one input pad of a chain whose first filter did not declare
/// `MultiInput`; else with
/// `CyclicWiring` where no order runs every chain after the chains that
/// feed it. No frame is needed, and none is asked for.
pub fn resolve<'a, 'r, M, P: Plugin>(
    graph: &FilterGraph<'a>,
    registry: &'r PluginManager<M, P>,
) -> (r: Result<ResolvedGraph<'a, 'r, M, P>, ResolutionError>)
    requires
        registry.wf(),
    ensures
        match r {
            Ok(rg) => {
                &&& all_known(graph@, registry@)
                &&& fan_in_supported(graph@, registry@)
                &&& rg.wf()
                &&& rg.registry() == registry
                &&& rg@.chains == chain_plans(graph@, registry@)
                &&& is_topological(graph@, rg@.order)
                &&& is_greedy(graph@, rg@.order)
            },
            Err(ResolutionError::UnknownFilterName) => !all_known(graph@, registry@),
            Err(ResolutionError::FanInNotSupported) => all_known(graph@, registry@)
                && !fan_in_supported(graph@, registry@),
            Err(ResolutionError::CyclicWiring) => all_known(graph@, registry@)
                && fan_in_supported(graph@, registry@) && !acyclic(graph@),
        },
{
    let source = graph.chains();
    let ghost g = graph@;
    let ghost reg = registry@;
    let n = source.len();
    let wiring = Wiring::of(source);
    let mut chains: Vec<ResolvedChain<'a>> = Vec::new();
    let mut c: usize = 0;
    while c < n
        invariant
            c <= n,
            n == source.len(),
            g == chain_views(source@),
            g == graph@,
            reg == registry@,
            registry.wf(),
            wiring.wf(),
            wiring.graph() == g,
            chains.len() == c,
            forall|i: int, k: int|
                0 <= i < c && 0 <= k < g[i].len() ==> find_slot(reg, (#[trigger] g[i][k]).name)
                    is Some,
            forall|i: int| 0 <= i < c ==> (#[trigger] chains@[i])@ == chain_plan(g, reg, i),
            forall|i: int, k: int|
                0 <= i < c && 0 <= k < chains@[i].nodes@.len() ==> (
                #[trigger] chains@[i].nodes@[k]).slot < reg.len() && registry.plugin_at(
                    chains@[i].nodes@[k].slot as int,
                ) is Some,
            forall|i: int, t: int|
                0 <= i < c && 0 <= t < chains@[i].targets@.len() ==> (
                #[trigger] chains@[i].targets@[t]) < n,
        decreases n - c,
    {
        let chain = &source[c];
        proof {
            assert(g[c as int] == chain@);
        }
        let nodes = match resolve_nodes(chain, registry) {
            Some(nodes) => nodes,
            None => {
                proof {
                    let k = choose|k: int|
                        0 <= k < chain@.len() && find_slot(reg, (#[trigger] chain@[k]).name)
                            is None;
                    assert(find_slot(reg, g[c as int][k].name) is None);
                }
                return Err(ResolutionError::UnknownFilterName);
            },
        };
        let entry = wiring.is_entry(c);
        let targets = wiring.targets_of(c);
        let resolved = ResolvedChain { nodes, entry, targets };
        proof {
            assert(resolved@ == chain_plan(g, reg, c as int));
        }
        chains.push(resolved);
        c = c + 1;
    }
    proof {
        assert(all_known(g, reg));
    }
    let mut j: usize = 0;
    while j < n
        invariant
            j <= n,
            n == chains.len(),
            n == g.len(),
            g == graph@,
            reg == registry@,
            all_known(g, reg),
            wiring.wf(),
            wiring.graph() == g,
            forall|i: int| 0 <= i < n ==> (#[trigger] chains@[i])@ == chain_plan(g, reg, i),
            forall|i: int| 0 <= i < j && #[trigger] fan_in(g, i) ==> receives_many(g, reg, i),
        decreases n - j,
    {
        if wiring.has_fan_in(j) {
            let nodes = &chains[j].nodes;
            proof {
                assert(chains@[j as int]@ == chain_plan(g, reg, j as int));
                assert(chains@[j as int]@.nodes.len() == nodes@.len());
                if nodes@.len() > 0 {
                    assert(chains@[j as int]@.nodes[0] == nodes@[0]@);
                }
            }
            if nodes.len() == 0 || !nodes[0].multi_input {
                proof {
                    assert(!receives_many(g, reg, j as int));
                }
                return Err(ResolutionError::FanInNotSupported);
            }
        }
        j = j + 1;
    }
    proof {
        assert(fan_in_supported(g, reg));
    }
    let order = match wiring.schedule() {
        Some(order) => order,
        None => {
            return Err(ResolutionError::CyclicWiring);
        },
    };
    let resolved = ResolvedGraph { registry, chains, order };
    proof {
        assert(resolved@.chains =~= chain_plans(g, reg));
        assert forall|c: int, t: int|
            0 <= c < resolved@.chains.len() && 0 <= t < resolved@.chains[c].targets.len() implies 0
            <= (#[trigger] resolved@.chains[c].targets[t]) < resolved@.chains.len() by {
            assert(resolved@.chains[c].targets[t] == resolved.chains@[c].targets@[t]);
        }
        assert forall|c: int, k: int|
            0 <= c < resolved@.chains.len() && 0 <= k < resolved@.chains[c].nodes.len() implies 0
            <= (#[trigger] resolved@.chains[c].nodes[k]).slot < reg.len() by {
            assert(resolved@.chains[c].nodes[k] == resolved.chains@[c].nodes@[k]@);
        }
    }
    Ok(resolved)
}

} // verus!
