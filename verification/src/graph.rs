//! The filtergraph as data: chains of filter invocations with their pads.
use vstd::prelude::*;
use vstd::std_specs::iter::IteratorSpec;
use crate::text::views;

verus! {

/// What a filter invocation says, as mathematical values.
pub struct NodeView {
    pub name: Seq<char>,
    pub args: Option<Seq<char>>,
    pub inpads: Seq<Seq<char>>,
    pub outpads: Seq<Seq<char>>,
}

/// One filter invocation: the filter's name, its raw argument text if it has
/// an argument block, and the pads named before and behind it.
#[derive(Debug, Clone, PartialEq, Eq)]
pub struct FilterInvocation<'a> {
    pub name: &'a str,
    pub args: Option<&'a str>,
    pub inpads: Vec<&'a str>,
    pub outpads: Vec<&'a str>,
}

impl<'a> View for FilterInvocation<'a> {
    type V = NodeView;

    open spec fn view(&self) -> NodeView {
        NodeView {
            name: self.name@,
            args: match self.args {
                Some(a) => Some(a@),
                None => None,
            },
            inpads: views(self.inpads@),
            outpads: views(self.outpads@),
        }
    }
}

/// A chain: filter invocations in the order in which frames pass through them.
#[derive(Debug, Clone, PartialEq, Eq)]
pub struct Chain<'a> {
    pub nodes: Vec<FilterInvocation<'a>>,
}

impl<'a> View for Chain<'a> {
    type V = Seq<NodeView>;

    open spec fn view(&self) -> Seq<NodeView> {
        node_views(self.nodes@)
    }
}

/// The views of a sequence of filter invocations.
pub open spec fn node_views<'a>(nodes: Seq<FilterInvocation<'a>>) -> Seq<NodeView> {
    Seq::new(nodes.len(), |i: int| nodes[i]@)
}

/// The views of a sequence of chains.
pub open spec fn chain_views<'a>(chains: Seq<Chain<'a>>) -> Seq<Seq<NodeView>> {
    Seq::new(chains.len(), |i: int| chains[i]@)
}

/// A directed filtergraph: chains in declaration order.
#[derive(Debug, Clone, PartialEq, Eq)]
pub struct FilterGraph<'a> {
    chains: Vec<Chain<'a>>,
}

impl<'a> View for FilterGraph<'a> {
    type V = Seq<Seq<NodeView>>;

    closed spec fn view(&self) -> Seq<Seq<NodeView>> {
        chain_views(self.chains@)
    }
}

impl<'a> FilterGraph<'a> {
    /// The graph made of `chains`, in their order.
    pub fn new(chains: Vec<Chain<'a>>) -> (g: Self)
        ensures
            g@ == chain_views(chains@),
    {
        Self { chains }
    }

    /// The chains, in declaration order.
    pub fn chains(&self) -> (c: &Vec<Chain<'a>>)
        ensures
            chain_views(c@) == self@,
    {
        &self.chains
    }

    /// Gives the chains up, in declaration order.
    pub fn into_chains(self) -> (c: Vec<Chain<'a>>)
        ensures
            chain_views(c@) == self@,
    {
        self.chains
    }
}

impl<'a> IntoIterator for FilterGraph<'a> {
    type Item = Chain<'a>;

    type IntoIter = std::vec::IntoIter<Chain<'a>>;

    /// An iterator over the chains, in declaration order.
    fn into_iter(self) -> (it: Self::IntoIter)
        ensures
            chain_views(IteratorSpec::remaining(&it)) == self@,
    {
        broadcast use vstd::std_specs::vec::axiom_spec_into_iter;

        self.chains.into_iter()
    }
}

} // verus!
