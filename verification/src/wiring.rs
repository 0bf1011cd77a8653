//! How the pads of a filtergraph wire its chains together: which chain
//! feeds which, where source frames enter, and in which order chains run.
use vstd::prelude::*;
use vstd::set_lib::{lemma_int_range, lemma_len_subset, lemma_subset_equality, set_int_range};
use crate::graph::{chain_views, Chain, NodeView};
use crate::text::{same_text, views};

verus! {

/// The input pads of a chain: those of its invocations, in order.
pub open spec fn chain_inputs(c: Seq<NodeView>) -> Seq<Seq<char>>
    decreases c.len(),
{
    if c.len() == 0 {
        Seq::empty()
    } else {
        chain_inputs(c.drop_last()) + c.last().inpads
    }
}

/// The output pads of a chain: those of its invocations, in order.
pub open spec fn chain_outputs(c: Seq<NodeView>) -> Seq<Seq<char>>
    decreases c.len(),
{
    if c.len() == 0 {
        Seq::empty()
    } else {
        chain_outputs(c.drop_last()) + c.last().outpads
    }
}

/// Whether a name occurs in both lists.
pub open spec fn shares(a: Seq<Seq<char>>, b: Seq<Seq<char>>) -> bool {
    exists|x: int, y: int| 0 <= x < a.len() && 0 <= y < b.len() && #[trigger] a[x] == #[trigger] b[y]
}

/// Chain `i` feeds chain `j`: they are two chains, and an output pad of `i`
/// is an input pad of `j`.
pub open spec fn feeds(g: Seq<Seq<NodeView>>, i: int, j: int) -> bool {
    &&& 0 <= i < g.len()
    &&& 0 <= j < g.len()
    &&& i != j
    &&& shares(chain_outputs(g[i]), chain_inputs(g[j]))
}

/// Some chain feeds chain `j`.
pub open spec fn fed(g: Seq<Seq<NodeView>>, j: int) -> bool {
    exists|i: int| feeds(g, i, j)
}

/// Chain `i` is another chain than `j` and has `pad` among its output
/// pads.
pub open spec fn feeds_pad(g: Seq<Seq<NodeView>>, i: int, j: int, pad: Seq<char>) -> bool {
    0 <= i < g.len() && i != j && chain_outputs(g[i]).contains(pad)
}

/// Two chains or more feed one input pad of chain `j`.
pub open spec fn fan_in(g: Seq<Seq<NodeView>>, j: int) -> bool {
    &&& 0 <= j < g.len()
    &&& exists|y: int, a: int, b: int|
        0 <= y < chain_inputs(g[j]).len() && a != b && #[trigger] feeds_pad(
            g,
            a,
            j,
            chain_inputs(g[j])[y],
        ) && #[trigger] feeds_pad(g, b, j, chain_inputs(g[j])[y])
}

/// Source frames enter chain `j`: no chain feeds it, and it either names
/// input pads or is the first chain that names none.
pub open spec fn is_entry(g: Seq<Seq<NodeView>>, j: int) -> bool {
    &&& 0 <= j < g.len()
    &&& !fed(g, j)
    &&& (chain_inputs(g[j]).len() > 0 || forall|c: int|
        0 <= c < j ==> chain_inputs(#[trigger] g[c]).len() > 0)
}

/// The chains that chain `i` feeds, among the first `k`, in rising order.
pub open spec fn targets_below(g: Seq<Seq<NodeView>>, i: int, k: int) -> Seq<int>
    decreases k,
{
    if k <= 0 {
        Seq::empty()
    } else if feeds(g, i, k - 1) {
        targets_below(g, i, k - 1).push(k - 1)
    } else {
        targets_below(g, i, k - 1)
    }
}

/// The chains that chain `i` feeds, in rising order. A chain that feeds
/// none hands its frames to the output.
pub open spec fn targets(g: Seq<Seq<NodeView>>, i: int) -> Seq<int> {
    targets_below(g, i, g.len() as int)
}

/// The targets of chain `i` among the first `k` chains are the chains that
/// it feeds, each once, in rising order.
pub proof fn lemma_targets_below(g: Seq<Seq<NodeView>>, i: int, k: int)
    requires
        0 <= k <= g.len(),
    ensures
        forall|j: int| #[trigger]
            targets_below(g, i, k).contains(j) <==> 0 <= j < k && feeds(g, i, j),
        forall|a: int, b: int|
            0 <= a < b < targets_below(g, i, k).len() ==> targets_below(g, i, k)[a]
                < targets_below(g, i, k)[b],
    decreases k,
{
    if k > 0 {
        lemma_targets_below(g, i, k - 1);
        let before = targets_below(g, i, k - 1);
        let now = targets_below(g, i, k);
        assert forall|j: int| #[trigger] now.contains(j) <==> 0 <= j < k && feeds(g, i, j) by {
            if feeds(g, i, k - 1) {
                assert(now.last() == k - 1);
                if before.contains(j) {
                    let x = choose|x: int| 0 <= x < before.len() && before[x] == j;
                    assert(now[x] == j);
                }
                if now.contains(j) && j != k - 1 {
                    let x = choose|x: int| 0 <= x < now.len() && now[x] == j;
                    assert(before[x] == j);
                }
            }
        }
        assert forall|a: int, b: int| 0 <= a < b < now.len() implies now[a] < now[b] by {
            if feeds(g, i, k - 1) {
                assert(now[a] == before[a]);
                assert(before.contains(before[a]));
                if b < before.len() {
                    assert(now[b] == before[b]);
                }
            }
        }
    }
}

/// The targets of a chain are the chains that it feeds, each once, in
/// rising order.
pub proof fn lemma_targets(g: Seq<Seq<NodeView>>, i: int)
    ensures
        forall|j: int| #[trigger] targets(g, i).contains(j) <==> feeds(g, i, j),
        forall|a: int, b: int|
            0 <= a < b < targets(g, i).len() ==> targets(g, i)[a] < targets(g, i)[b],
{
    lemma_targets_below(g, i, g.len() as int);
}

/// In a topological order no chain feeds a chain that has run: frames are
/// delivered only to chains at later places.
pub proof fn lemma_targets_run_later(g: Seq<Seq<NodeView>>, order: Seq<int>, a: int, b: int)
    requires
        is_topological(g, order),
        0 <= a < order.len(),
        0 <= b < order.len(),
        targets(g, order[a]).contains(order[b]),
    ensures
        a < b,
{
    lemma_targets(g, order[a]);
}

/// Chain `c` can run once the chains of `placed` have: it is not among
/// them, and every chain that feeds it is.
pub open spec fn ready_after(g: Seq<Seq<NodeView>>, placed: Seq<int>, c: int) -> bool {
    &&& 0 <= c < g.len()
    &&& !placed.contains(c)
    &&& forall|i: int| feeds(g, i, c) ==> placed.contains(i)
}

/// `order` runs every chain once, and each chain after those that feed it.
pub open spec fn is_topological(g: Seq<Seq<NodeView>>, order: Seq<int>) -> bool {
    &&& order.len() == g.len()
    &&& order.no_duplicates()
    &&& forall|k: int| 0 <= k < order.len() ==> 0 <= #[trigger] order[k] < g.len()
    &&& forall|a: int, b: int| 0 <= a <= b < order.len() ==> !feeds(g, order[b], order[a])
}

/// At each position of `order` stands the lowest-numbered chain that can
/// run there.
pub open spec fn is_greedy(g: Seq<Seq<NodeView>>, order: Seq<int>) -> bool {
    forall|k: int|
        0 <= k < order.len() ==> {
            &&& ready_after(g, order.subrange(0, k), #[trigger] order[k])
            &&& forall|c: int| 0 <= c < order[k] ==> !ready_after(g, order.subrange(0, k), c)
        }
}

/// The wiring admits an order in which every chain runs after its feeders.
pub open spec fn acyclic(g: Seq<Seq<NodeView>>) -> bool {
    exists|order: Seq<int>| is_topological(g, order)
}

/// Appends the names of `more` to `names`.
fn append_names<'a>(names: &mut Vec<&'a str>, more: &Vec<&'a str>)
    ensures
        views(final(names)@) == views(old(names)@) + views(more@),
{
    let ghost before = views(names@);
    let mut m: usize = 0;
    proof {
        assert(views(names@) =~= before + views(more@).subrange(0, 0));
    }
    while m < more.len()
        invariant
            m <= more.len(),
            views(names@) == before + views(more@).subrange(0, m as int),
        decreases more.len() - m,
    {
        let ghost prev = names@;
        names.push(more[m]);
        proof {
            assert(views(names@) =~= views(prev).push(more@[m as int]@));
            assert(views(names@) =~= before + views(more@).subrange(0, m + 1));
        }
        m = m + 1;
    }
    proof {
        assert(views(more@).subrange(0, more.len() as int) =~= views(more@));
    }
}

impl<'a> Chain<'a> {
    /// The input pads that the chain declares: those of its invocations,
    /// in order.
    pub fn input_pads(&self) -> (pads: Vec<&'a str>)
        ensures
            views(pads@) == chain_inputs(self@),
    {
        let mut pads: Vec<&'a str> = Vec::new();
        let mut k: usize = 0;
        proof {
            assert(self@.subrange(0, 0) =~= Seq::<NodeView>::empty());
            assert(views(pads@) =~= Seq::<Seq<char>>::empty());
        }
        while k < self.nodes.len()
            invariant
                k <= self.nodes.len(),
                views(pads@) == chain_inputs(self@.subrange(0, k as int)),
            decreases self.nodes.len() - k,
        {
            let node = &self.nodes[k];
            append_names(&mut pads, &node.inpads);
            proof {
                assert(self@.subrange(0, k + 1).drop_last() =~= self@.subrange(0, k as int));
                assert(self@.subrange(0, k + 1).last() == node@);
            }
            k = k + 1;
        }
        proof {
            assert(self@.subrange(0, self.nodes.len() as int) =~= self@);
        }
        pads
    }

    /// The output pads that the chain declares: those of its invocations,
    /// in order.
    pub fn output_pads(&self) -> (pads: Vec<&'a str>)
        ensures
            views(pads@) == chain_outputs(self@),
    {
        let mut pads: Vec<&'a str> = Vec::new();
        let mut k: usize = 0;
        proof {
            assert(self@.subrange(0, 0) =~= Seq::<NodeView>::empty());
            assert(views(pads@) =~= Seq::<Seq<char>>::empty());
        }
        while k < self.nodes.len()
            invariant
                k <= self.nodes.len(),
                views(pads@) == chain_outputs(self@.subrange(0, k as int)),
            decreases self.nodes.len() - k,
        {
            let node = &self.nodes[k];
            append_names(&mut pads, &node.outpads);
            proof {
                assert(self@.subrange(0, k + 1).drop_last() =~= self@.subrange(0, k as int));
                assert(self@.subrange(0, k + 1).last() == node@);
            }
            k = k + 1;
        }
        proof {
            assert(self@.subrange(0, self.nodes.len() as int) =~= self@);
        }
        pads
    }
}

/// Whether a name occurs in both lists.
pub fn shares_any(a: &Vec<&str>, b: &Vec<&str>) -> (r: bool)
    ensures
        r == shares(views(a@), views(b@)),
{
    let mut x: usize = 0;
    while x < a.len()
        invariant
            x <= a.len(),
            forall|p: int, q: int|
                0 <= p < x && 0 <= q < b.len() ==> #[trigger] views(a@)[p] != #[trigger] views(
                    b@,
                )[q],
        decreases a.len() - x,
    {
        let mut y: usize = 0;
        while y < b.len()
            invariant
                x < a.len(),
                y <= b.len(),
                forall|q: int| 0 <= q < y ==> views(a@)[x as int] != #[trigger] views(b@)[q],
            decreases b.len() - y,
        {
            if same_text(a[x], b[y]) {
                proof {
                    assert(views(a@)[x as int] == views(b@)[y as int]);
                }
                return true;
            }
            y = y + 1;
        }
        x = x + 1;
    }
    false
}

/// The numbers of `v` as integers.
pub open spec fn as_ints(v: Seq<usize>) -> Seq<int> {
    Seq::new(v.len(), |i: int| v[i] as int)
}

/// A list of `n` distinct chains names every chain.
pub proof fn lemma_all_chains_occur(order: Seq<int>, n: int)
    requires
        order.len() == n,
        order.no_duplicates(),
        forall|k: int| 0 <= k < order.len() ==> 0 <= #[trigger] order[k] < n,
    ensures
        forall|c: int| 0 <= c < n ==> order.contains(c),
{
    let s = order.to_set();
    let r = set_int_range(0, n);
    order.unique_seq_to_set();
    lemma_int_range(0, n);
    assert(s.subset_of(r)) by {
        assert forall|x: int| s.contains(x) implies r.contains(x) by {
            let k = choose|k: int| 0 <= k < order.len() && order[k] == x;
            assert(0 <= order[k] < n);
        }
    }
    lemma_len_subset(s, r);
    lemma_subset_equality(s, r);
    assert forall|c: int| 0 <= c < n implies order.contains(c) by {
        assert(r.contains(c));
        assert(s.contains(c));
    }
}

/// A list of fewer than `n` distinct chains leaves a chain out.
pub proof fn lemma_some_chain_left(order: Seq<int>, n: int)
    requires
        order.len() < n,
        order.no_duplicates(),
    ensures
        exists|c: int| 0 <= c < n && !order.contains(c),
{
    let s = order.to_set();
    let r = set_int_range(0, n);
    order.unique_seq_to_set();
    lemma_int_range(0, n);
    if forall|c: int| 0 <= c < n ==> order.contains(c) {
        assert(r.subset_of(s)) by {
            assert forall|x: int| r.contains(x) implies s.contains(x) by {
                assert(order.contains(x));
            }
        }
        vstd::seq_lib::seq_to_set_is_finite(order);
        lemma_len_subset(r, s);
    }
}

/// Where no chain that is left can run, there is a cycle: no order runs
/// every chain after its feeders.
pub proof fn lemma_stuck_is_cyclic(g: Seq<Seq<NodeView>>, placed: Seq<int>)
    requires
        placed.len() < g.len(),
        placed.no_duplicates(),
        forall|c: int| 0 <= c < g.len() ==> !ready_after(g, placed, c),
    ensures
        !acyclic(g),
{
    if acyclic(g) {
        let order = choose|order: Seq<int>| is_topological(g, order);
        lemma_all_chains_occur(order, g.len() as int);
        lemma_placed_prefix(g, placed, order, g.len() as int);
        lemma_some_chain_left(placed, g.len() as int);
        let c = choose|c: int| 0 <= c < g.len() && !placed.contains(c);
        assert(order.contains(c));
    }
}

/// In a stuck state every chain at the front of a topological order has
/// run already.
proof fn lemma_placed_prefix(g: Seq<Seq<NodeView>>, placed: Seq<int>, order: Seq<int>, k: int)
    requires
        is_topological(g, order),
        forall|c: int| 0 <= c < g.len() ==> order.contains(c),
        forall|c: int| 0 <= c < g.len() ==> !ready_after(g, placed, c),
        0 <= k <= order.len(),
    ensures
        forall|p: int| 0 <= p < k ==> placed.contains(#[trigger] order[p]),
    decreases k,
{
    if k > 0 {
        lemma_placed_prefix(g, placed, order, k - 1);
        let u = order[k - 1];
        if !placed.contains(u) {
            assert(!ready_after(g, placed, u));
            let i = choose|i: int| feeds(g, i, u) && !placed.contains(i);
            assert(order.contains(i));
            let q = choose|q: int| 0 <= q < order.len() && order[q] == i;
            if q >= k - 1 {
                assert(!feeds(g, order[q], order[k - 1]));
            }
            assert(placed.contains(order[q]));
        }
    }
}

/// `ins` and `outs` hold the input and the output pads of the chains of `g`.
pub open spec fn is_pads(g: Seq<Seq<NodeView>>, ins: Seq<Vec<&str>>, outs: Seq<Vec<&str>>) -> bool {
    &&& ins.len() == g.len()
    &&& outs.len() == g.len()
    &&& forall|k: int| 0 <= k < g.len() ==> views((#[trigger] ins[k])@) == chain_inputs(g[k])
    &&& forall|k: int| 0 <= k < g.len() ==> views((#[trigger] outs[k])@) == chain_outputs(g[k])
}

/// `table` is the wiring of `g`: row `i`, column `j` says whether chain `i`
/// feeds chain `j`.
pub open spec fn is_wiring(g: Seq<Seq<NodeView>>, table: Seq<Vec<bool>>) -> bool {
    &&& table.len() == g.len()
    &&& forall|i: int| 0 <= i < table.len() ==> (#[trigger] table[i])@.len() == g.len()
    &&& forall|i: int, j: int|
        0 <= i < g.len() && 0 <= j < g.len() ==> (#[trigger] table[i]@[j]) == feeds(g, i, j)
}

/// Whether `name` is among `names`.
pub fn has_name(names: &Vec<&str>, name: &str) -> (r: bool)
    ensures
        r == views(names@).contains(name@),
{
    let mut x: usize = 0;
    while x < names.len()
        invariant
            x <= names.len(),
            forall|p: int| 0 <= p < x ==> #[trigger] views(names@)[p] != name@,
        decreases names.len() - x,
    {
        if same_text(names[x], name) {
            proof {
                assert(views(names@)[x as int] == name@);
            }
            return true;
        }
        x = x + 1;
    }
    false
}

/// The wiring of a graph, worked out once: the pads of every chain, and
/// which chain feeds which.
pub struct Wiring<'a> {
    ins: Vec<Vec<&'a str>>,
    outs: Vec<Vec<&'a str>>,
    table: Vec<Vec<bool>>,
    graph: Ghost<Seq<Seq<NodeView>>>,
}

impl<'a> Wiring<'a> {
    /// The graph whose wiring this is.
    pub closed spec fn graph(&self) -> Seq<Seq<NodeView>> {
        self.graph@
    }

    /// The tables hold what the graph says.
    pub closed spec fn wf(&self) -> bool {
        is_pads(self.graph@, self.ins@, self.outs@) && is_wiring(self.graph@, self.table@)
    }

    /// The wiring of `chains`.
    pub fn of(chains: &Vec<Chain<'a>>) -> (w: Self)
        ensures
            w.wf(),
            w.graph() == chain_views(chains@),
    {
        let ghost g = chain_views(chains@);
        let n = chains.len();
        let mut ins: Vec<Vec<&'a str>> = Vec::new();
        let mut outs: Vec<Vec<&'a str>> = Vec::new();
        let mut c: usize = 0;
        while c < n
            invariant
                c <= n,
                n == chains.len(),
                g == chain_views(chains@),
                ins.len() == c,
                outs.len() == c,
                forall|k: int| 0 <= k < c ==> views((#[trigger] ins@[k])@) == chain_inputs(g[k]),
                forall|k: int|
                    0 <= k < c ==> views((#[trigger] outs@[k])@) == chain_outputs(g[k]),
            decreases n - c,
        {
            ins.push(chains[c].input_pads());
            outs.push(chains[c].output_pads());
            c = c + 1;
        }
        let mut table: Vec<Vec<bool>> = Vec::new();
        let mut i: usize = 0;
        while i < n
            invariant
                i <= n,
                n == g.len(),
                is_pads(g, ins@, outs@),
                table.len() == i,
                forall|a: int| 0 <= a < i ==> (#[trigger] table@[a])@.len() == n,
                forall|a: int, b: int|
                    0 <= a < i && 0 <= b < n ==> (#[trigger] table@[a]@[b]) == feeds(g, a, b),
            decreases n - i,
        {
            let mut row: Vec<bool> = Vec::new();
            let mut j: usize = 0;
            while j < n
                invariant
                    i < n,
                    j <= n,
                    n == g.len(),
                    is_pads(g, ins@, outs@),
                    row.len() == j,
                    forall|b: int| 0 <= b < j ==> (#[trigger] row@[b]) == feeds(g, i as int, b),
                decreases n - j,
            {
                let linked = i != j && shares_any(&outs[i], &ins[j]);
                row.push(linked);
                j = j + 1;
            }
            table.push(row);
            i = i + 1;
        }
        Wiring { ins, outs, table, graph: Ghost(g) }
    }

    /// Number of chains.
    pub fn chain_count(&self) -> (n: usize)
        requires
            self.wf(),
        ensures
            n == self.graph().len(),
    {
        self.table.len()
    }

    /// Whether chain `i` feeds chain `j`.
    pub fn feeds(&self, i: usize, j: usize) -> (b: bool)
        requires
            self.wf(),
            i < self.graph().len(),
            j < self.graph().len(),
        ensures
            b == feeds(self.graph(), i as int, j as int),
    {
        self.table[i][j]
    }

    /// Whether some chain feeds chain `j`.
    pub fn is_fed(&self, j: usize) -> (b: bool)
        requires
            self.wf(),
            j < self.graph().len(),
        ensures
            b == fed(self.graph(), j as int),
    {
        let ghost g = self.graph();
        let mut i: usize = 0;
        while i < self.table.len()
            invariant
                i <= self.table.len(),
                self.wf(),
                g == self.graph(),
                j < g.len(),
                forall|k: int| 0 <= k < i ==> !feeds(g, k, j as int),
            decreases self.table.len() - i,
        {
            if self.table[i][j] {
                return true;
            }
            i = i + 1;
        }
        false
    }

    /// Whether source frames enter chain `j`.
    pub fn is_entry(&self, j: usize) -> (b: bool)
        requires
            self.wf(),
            j < self.graph().len(),
        ensures
            b == is_entry(self.graph(), j as int),
    {
        let ghost g = self.graph();
        if self.is_fed(j) {
            return false;
        }
        if self.ins[j].len() > 0 {
            proof {
                assert(views(self.ins@[j as int]@).len() > 0);
            }
            return true;
        }
        proof {
            assert(views(self.ins@[j as int]@).len() == 0);
        }
        let mut c: usize = 0;
        while c < j
            invariant
                c <= j,
                self.wf(),
                g == self.graph(),
                j < g.len(),
                chain_inputs(g[j as int]).len() == 0,
                forall|k: int| 0 <= k < c ==> chain_inputs(#[trigger] g[k]).len() > 0,
            decreases j - c,
        {
            if self.ins[c].len() == 0 {
                proof {
                    assert(views(self.ins@[c as int]@).len() == 0);
                    assert(chain_inputs(g[c as int]).len() == 0);
                }
                return false;
            }
            proof {
                assert(views(self.ins@[c as int]@).len() > 0);
            }
            c = c + 1;
        }
        true
    }

    /// Whether two chains or more feed one input pad of chain `j`.
    pub fn has_fan_in(&self, j: usize) -> (b: bool)
        requires
            self.wf(),
            j < self.graph().len(),
        ensures
            b == fan_in(self.graph(), j as int),
    {
        let ghost g = self.graph();
        let ghost pads = chain_inputs(g[j as int]);
        let n = self.table.len();
        let inputs = &self.ins[j];
        let mut y: usize = 0;
        while y < inputs.len()
            invariant
                y <= inputs.len(),
                self.wf(),
                g == self.graph(),
                n == g.len(),
                j < n,
                pads == chain_inputs(g[j as int]),
                views(inputs@) == pads,
                forall|p: int, a: int, b: int|
                    0 <= p < y && a != b ==> !(#[trigger] feeds_pad(g, a, j as int, pads[p])
                        && #[trigger] feeds_pad(g, b, j as int, pads[p])),
            decreases inputs.len() - y,
        {
            let pad = inputs[y];
            proof {
                assert(pad@ == pads[y as int]);
            }
            let mut first: Option<usize> = None;
            let mut i: usize = 0;
            while i < n
                invariant
                    i <= n,
                    self.wf(),
                    g == self.graph(),
                    n == g.len(),
                    j < n,
                    y < inputs.len(),
                    pads == chain_inputs(g[j as int]),
                    views(inputs@) == pads,
                    pad@ == pads[y as int],
                    match first {
                        Some(a) => a < i && feeds_pad(g, a as int, j as int, pad@) && forall|
                            k: int,
                        |
                            0 <= k < i && k != a ==> !feeds_pad(g, k, j as int, pad@),
                        None => forall|k: int| 0 <= k < i ==> !feeds_pad(g, k, j as int, pad@),
                    },
                decreases n - i,
            {
                if i != j && has_name(&self.outs[i], pad) {
                    match first {
                        Some(a) => {
                            proof {
                                assert(feeds_pad(g, a as int, j as int, pads[y as int]));
                                assert(feeds_pad(g, i as int, j as int, pads[y as int]));
                            }
                            return true;
                        },
                        None => {
                            first = Some(i);
                        },
                    }
                }
                i = i + 1;
            }
            proof {
                assert forall|a: int, b: int| a != b implies !(#[trigger] feeds_pad(
                    g,
                    a,
                    j as int,
                    pads[y as int],
                ) && #[trigger] feeds_pad(g, b, j as int, pads[y as int])) by {
                    if feeds_pad(g, a, j as int, pad@) && feeds_pad(g, b, j as int, pad@) {
                        match first {
                            Some(f) => {
                                assert(a == f);
                                assert(b == f);
                            },
                            None => {},
                        }
                    }
                }
            }
            y = y + 1;
        }
        false
    }

    /// The chains that chain `i` feeds, in rising order.
    pub fn targets_of(&self, i: usize) -> (r: Vec<usize>)
        requires
            self.wf(),
            i < self.graph().len(),
        ensures
            as_ints(r@) == targets(self.graph(), i as int),
            forall|k: int| 0 <= k < r@.len() ==> (#[trigger] r@[k]) < self.graph().len(),
    {
        let ghost g = self.graph();
        let n = self.table.len();
        let mut r: Vec<usize> = Vec::new();
        let mut j: usize = 0;
        while j < n
            invariant
                j <= n,
                n == g.len(),
                self.wf(),
                g == self.graph(),
                i < g.len(),
                r@.len() == targets_below(g, i as int, j as int).len(),
                forall|k: int|
                    0 <= k < r@.len() ==> (#[trigger] r@[k]) as int == targets_below(
                        g,
                        i as int,
                        j as int,
                    )[k],
                forall|k: int| 0 <= k < r@.len() ==> (#[trigger] r@[k]) < g.len(),
            decreases n - j,
        {
            if self.table[i][j] {
                r.push(j);
            }
            j = j + 1;
        }
        proof {
            assert(as_ints(r@) =~= targets(g, i as int));
        }
        r
    }

    /// The order in which the chains run: at each position the lowest-numbered
    /// chain whose feeders have all run. `None` where the wiring has a cycle.
    pub fn schedule(&self) -> (r: Option<Vec<usize>>)
        requires
            self.wf(),
        ensures
            match r {
                Some(order) => is_topological(self.graph(), as_ints(order@)) && is_greedy(
                    self.graph(),
                    as_ints(order@),
                ),
                None => !acyclic(self.graph()),
            },
    {
        let ghost g = self.graph();
        let table = &self.table;
        let n = table.len();
        let mut order: Vec<usize> = Vec::new();
        let mut placed: Vec<bool> = Vec::new();
        let mut c: usize = 0;
        while c < n
            invariant
                c <= n,
                placed.len() == c,
                forall|k: int| 0 <= k < c ==> !(#[trigger] placed@[k]),
            decreases n - c,
        {
            placed.push(false);
            c = c + 1;
        }
        while order.len() < n
            invariant
                n == g.len(),
                is_wiring(g, table@),
                g == self.graph(),
                placed.len() == n,
                order.len() <= n,
                forall|c: int| 0 <= c < n ==> (#[trigger] placed@[c]) == as_ints(order@).contains(c),
                forall|k: int| 0 <= k < order.len() ==> (#[trigger] order@[k]) < n,
                as_ints(order@).no_duplicates(),
                is_greedy(g, as_ints(order@)),
            decreases n - order.len(),
        {
            let ghost done = as_ints(order@);
            let mut pick: usize = 0;
            let mut found = false;
            while pick < n && !found
                invariant
                    n == g.len(),
                    is_wiring(g, table@),
                g == self.graph(),
                    placed.len() == n,
                    pick <= n,
                    done == as_ints(order@),
                    forall|c: int| 0 <= c < n ==> (#[trigger] placed@[c]) == done.contains(c),
                    found ==> pick < n && ready_after(g, done, pick as int),
                    forall|c: int| 0 <= c < pick ==> !ready_after(g, done, c),
                decreases n - pick + (if found { 0int } else { 1int }),
            {
                let mut ok = !placed[pick];
                let mut i: usize = 0;
                while i < n && ok
                    invariant
                        n == g.len(),
                        is_wiring(g, table@),
                g == self.graph(),
                        placed.len() == n,
                        pick < n,
                        i <= n,
                        forall|c: int| 0 <= c < n ==> (#[trigger] placed@[c]) == done.contains(c),
                        ok ==> !done.contains(pick as int) && forall|k: int|
                            0 <= k < i && feeds(g, k, pick as int) ==> done.contains(k),
                        !ok ==> !ready_after(g, done, pick as int),
                    decreases n - i + (if ok { 1int } else { 0int }),
                {
                    if table[i][pick] && !placed[i] {
                        ok = false;
                        proof {
                            assert(feeds(g, i as int, pick as int) && !done.contains(i as int));
                        }
                    } else {
                        i = i + 1;
                    }
                }
                if ok {
                    found = true;
                } else {
                    pick = pick + 1;
                }
            }
            if !found {
                proof {
                    lemma_stuck_is_cyclic(g, done);
                }
                return None;
            }
            proof {
                let next = as_ints(order@.push(pick));
                assert(next =~= done.push(pick as int));
                assert(next.subrange(0, done.len() as int) =~= done);
                assert forall|k: int| 0 <= k < next.len() implies {
                    &&& ready_after(g, next.subrange(0, k), #[trigger] next[k])
                    &&& forall|c: int| 0 <= c < next[k] ==> !ready_after(g, next.subrange(0, k), c)
                } by {
                    if k < done.len() {
                        assert(next.subrange(0, k) =~= done.subrange(0, k));
                        assert(next[k] == done[k]);
                    }
                }
                assert forall|c: int| 0 <= c < n implies (#[trigger] placed@.update(
                    pick as int,
                    true,
                )[c]) == next.contains(c) by {
                    if c == pick {
                        assert(next[done.len() as int] == c);
                    } else if done.contains(c) {
                        let k = choose|k: int| 0 <= k < done.len() && done[k] == c;
                        assert(next[k] == c);
                    } else if next.contains(c) {
                        let k = choose|k: int| 0 <= k < next.len() && next[k] == c;
                        assert(done[k] == c);
                    }
                }
            }
            placed[pick] = true;
            order.push(pick);
        }
        proof {
            lemma_greedy_is_topological(g, as_ints(order@));
        }
        Some(order)
    }
}

/// A greedy order without repetition that names as many chains as there
/// are runs each chain after its feeders.
pub proof fn lemma_greedy_is_topological(g: Seq<Seq<NodeView>>, order: Seq<int>)
    requires
        order.len() == g.len(),
        order.no_duplicates(),
        is_greedy(g, order),
    ensures
        is_topological(g, order),
{
    assert forall|k: int| 0 <= k < order.len() implies 0 <= #[trigger] order[k] < g.len() by {
        assert(ready_after(g, order.subrange(0, k), order[k]));
    }
    assert forall|a: int, b: int| 0 <= a <= b < order.len() implies !feeds(
        g,
        order[b],
        order[a],
    ) by {
        if feeds(g, order[b], order[a]) {
            let front = order.subrange(0, a);
            assert(ready_after(g, front, order[a]));
            assert(front.contains(order[b]));
            let k = choose|k: int| 0 <= k < front.len() && front[k] == order[b];
            assert(order[k] == order[b]);
        }
    }
}

} // verus!
