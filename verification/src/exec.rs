//! Execution: a source frame's walk through a resolved graph, one plugin
//! call at a time.
//!
//! What a plugin returns is up to the plugin. The walk is therefore stated
//! as a machine: `Walk::take` says which frames go into the next call,
//! `Walk::supply` says where the frames that came back go, and the path of a
//! frame is what the machine makes of the calls' results. `process` and
//! `run` say that each result is one that the plugin of the call admits, on
//! the frames and the argument text of that call.
use vstd::prelude::*;
use crate::plugin::{frame_views, text_view, Frame, FrameView, Plugin};
use crate::resolve::{plan_wf, NodePlan, Plan, ResolvedGraph};
use crate::wiring::as_ints;

verus! {

/// A walk as mathematical values.
pub struct WalkView {
    /// For each chain, the frames delivered to it that it has not taken up.
    pub inbox: Seq<Seq<FrameView>>,
    /// The frames output so far.
    pub out: Seq<FrameView>,
    /// The place in the running order of the chain that is running.
    pub pos: int,
    /// The filter of that chain that is running.
    pub node: int,
    /// The frames that the running filter has yet to take.
    pub pending: Seq<FrameView>,
    /// The frames that the running filter has given so far.
    pub produced: Seq<FrameView>,
}

/// Every chain has run.
pub open spec fn finished(plan: Plan, w: WalkView) -> bool {
    w.pos >= plan.order.len()
}

/// The filters of the chain that is running.
pub open spec fn running_nodes(plan: Plan, w: WalkView) -> Seq<NodePlan> {
    plan.chains[plan.order[w.pos]].nodes
}

/// A plugin call is due: a filter is running and has frames to take.
pub open spec fn due(plan: Plan, w: WalkView) -> bool {
    &&& 0 <= w.pos < plan.order.len()
    &&& 0 <= w.node < running_nodes(plan, w).len()
    &&& w.pending.len() > 0
}

/// The inboxes after `frames` went to each of `targets`.
pub open spec fn deliver(inbox: Seq<Seq<FrameView>>, targets: Seq<int>, frames: Seq<FrameView>) -> Seq<
    Seq<FrameView>,
>
    decreases targets.len(),
{
    if targets.len() == 0 {
        inbox
    } else {
        let before = deliver(inbox, targets.drop_last(), frames);
        let t = targets.last();
        before.update(t, before[t] + frames)
    }
}

/// The walk at the start of the chain at place `pos`: the chain takes up
/// what was delivered to it.
pub open spec fn chain_started(plan: Plan, w: WalkView, pos: int) -> WalkView {
    if 0 <= pos < plan.order.len() {
        let c = plan.order[pos];
        WalkView {
            inbox: w.inbox.update(c, Seq::empty()),
            out: w.out,
            pos,
            node: 0,
            pending: w.inbox[c],
            produced: Seq::empty(),
        }
    } else {
        WalkView {
            inbox: w.inbox,
            out: w.out,
            pos,
            node: 0,
            pending: Seq::empty(),
            produced: Seq::empty(),
        }
    }
}

/// The walk after the running chain handed its frames on: to the chains
/// that it feeds, or to the output where it feeds none. The next chain in
/// the order starts.
pub open spec fn routed(plan: Plan, w: WalkView) -> WalkView {
    let chain = plan.chains[plan.order[w.pos]];
    let handed = WalkView {
        inbox: deliver(w.inbox, chain.targets, w.pending),
        out: if chain.targets.len() == 0 {
            w.out + w.pending
        } else {
            w.out
        },
        pos: w.pos,
        node: w.node,
        pending: Seq::empty(),
        produced: Seq::empty(),
    };
    chain_started(plan, handed, w.pos + 1)
}

/// The walk after the running filter, having taken all its frames, gave
/// way to the next filter of the chain.
pub open spec fn advanced(w: WalkView) -> WalkView {
    WalkView {
        inbox: w.inbox,
        out: w.out,
        pos: w.pos,
        node: w.node + 1,
        pending: w.produced,
        produced: Seq::empty(),
    }
}

/// The walk brought to where the next plugin call is due, or to its end.
pub open spec fn settle(plan: Plan, w: WalkView) -> WalkView
    decreases plan.order.len() - w.pos, running_nodes(plan, w).len() - w.node,
{
    if !(0 <= w.pos < plan.order.len()) || w.node < 0 {
        w
    } else if w.node < running_nodes(plan, w).len() {
        if w.pending.len() > 0 {
            w
        } else {
            settle(plan, advanced(w))
        }
    } else {
        settle(plan, routed(plan, w))
    }
}

/// The walk of `frame` before the first call: the frame lies in the inbox
/// of every entry chain, and the first chain of the order has started.
pub open spec fn begin(plan: Plan, frame: FrameView) -> WalkView {
    let inbox = Seq::new(
        plan.chains.len(),
        |c: int|
            if plan.chains[c].entry {
                seq![frame]
            } else {
                Seq::empty()
            },
    );
    let fresh = WalkView {
        inbox,
        out: Seq::empty(),
        pos: 0,
        node: 0,
        pending: Seq::empty(),
        produced: Seq::empty(),
    };
    settle(plan, chain_started(plan, fresh, 0))
}

/// The frames that go into the call that is due: all that are pending
/// where the plugin takes several frames per call, else the first.
pub open spec fn call_input(plan: Plan, w: WalkView) -> Seq<FrameView> {
    if running_nodes(plan, w)[w.node].multi_input {
        w.pending
    } else {
        seq![w.pending[0]]
    }
}

/// The walk after the frames of the call that is due were taken.
pub open spec fn taken(plan: Plan, w: WalkView) -> WalkView {
    WalkView {
        inbox: w.inbox,
        out: w.out,
        pos: w.pos,
        node: w.node,
        pending: if running_nodes(plan, w)[w.node].multi_input {
            Seq::empty()
        } else {
            w.pending.drop_first()
        },
        produced: w.produced,
    }
}

/// The walk after a call gave `result`.
pub open spec fn supplied(plan: Plan, w: WalkView, result: Seq<FrameView>) -> WalkView {
    settle(
        plan,
        WalkView {
            inbox: w.inbox,
            out: w.out,
            pos: w.pos,
            node: w.node,
            pending: w.pending,
            produced: w.produced + result,
        },
    )
}

/// One call: its frames taken, its result supplied.
pub open spec fn step(plan: Plan, w: WalkView, result: Seq<FrameView>) -> WalkView {
    supplied(plan, taken(plan, w), result)
}

/// The walk after the calls that were due gave `results`, one after the
/// other.
pub open spec fn replay(plan: Plan, w: WalkView, results: Seq<Seq<FrameView>>) -> WalkView
    decreases results.len(),
{
    if results.len() == 0 {
        w
    } else {
        step(plan, replay(plan, w, results.drop_last()), results.last())
    }
}

/// Each of `results` answers a call that was due when it came.
pub open spec fn all_due(plan: Plan, w: WalkView, results: Seq<Seq<FrameView>>) -> bool {
    forall|k: int|
        0 <= k < results.len() ==> due(plan, replay(plan, w, #[trigger] results.subrange(0, k)))
}

/// The walk of `frame` takes as many calls as `results` has entries, the
/// calls give `results`, and the walk ends with `out` as its output.
pub open spec fn walked(
    plan: Plan,
    frame: FrameView,
    results: Seq<Seq<FrameView>>,
    out: Seq<FrameView>,
) -> bool {
    let w = replay(plan, begin(plan, frame), results);
    &&& all_due(plan, begin(plan, frame), results)
    &&& finished(plan, w)
    &&& w.out == out
}

/// The output of a run: the outputs of the frames' walks, in the order of
/// the frames. `results[i]` holds what the calls of the walk of `frames[i]`
/// gave.
pub open spec fn run_output(
    plan: Plan,
    frames: Seq<FrameView>,
    results: Seq<Seq<Seq<FrameView>>>,
) -> Seq<FrameView>
    decreases frames.len(),
{
    if frames.len() == 0 {
        Seq::empty()
    } else {
        run_output(plan, frames.drop_last(), results.drop_last()) + replay(
            plan,
            begin(plan, frames.last()),
            results.last(),
        ).out
    }
}

/// Every walk of the run came to its end.
pub open spec fn run_complete(
    plan: Plan,
    frames: Seq<FrameView>,
    results: Seq<Seq<Seq<FrameView>>>,
) -> bool {
    &&& results.len() == frames.len()
    &&& forall|i: int|
        0 <= i < frames.len() ==> walked(
            plan,
            #[trigger] frames[i],
            results[i],
            replay(plan, begin(plan, frames[i]), results[i]).out,
        )
}

/// Settling never goes back: it leaves the walk as it is, or at a later
/// chain, or at a later filter of the same chain.
pub proof fn lemma_settle_forward(plan: Plan, w: WalkView)
    requires
        0 <= w.pos <= plan.order.len(),
        0 <= w.node,
    ensures
        ({
            let s = settle(plan, w);
            &&& 0 <= s.pos <= plan.order.len()
            &&& 0 <= s.node
            &&& (s == w || s.pos > w.pos || (s.pos == w.pos && s.node > w.node))
            &&& (finished(plan, s) || due(plan, s))
        }),
    decreases plan.order.len() - w.pos, running_nodes(plan, w).len() - w.node,
{
    if w.pos < plan.order.len() {
        if w.node < running_nodes(plan, w).len() {
            if w.pending.len() == 0 {
                lemma_settle_forward(plan, advanced(w));
            }
        } else {
            lemma_settle_forward(plan, routed(plan, w));
        }
    }
}

/// The calls of `results` gave what `behaviour` says: plugins that are
/// functions of the filter they serve and the frames they are handed.
pub open spec fn answers(
    plan: Plan,
    w: WalkView,
    results: Seq<Seq<FrameView>>,
    behaviour: spec_fn(NodePlan, Seq<FrameView>) -> Seq<FrameView>,
) -> bool {
    forall|k: int|
        0 <= k < results.len() ==> {
            let at = replay(plan, w, results.subrange(0, k));
            #[trigger] results[k] == behaviour(running_nodes(plan, at)[at.node], call_input(plan, at))
        }
}

/// Two walks whose calls gave what `behaviour` says took the same calls as
/// far as both went.
proof fn lemma_same_prefix(
    plan: Plan,
    w: WalkView,
    behaviour: spec_fn(NodePlan, Seq<FrameView>) -> Seq<FrameView>,
    first: Seq<Seq<FrameView>>,
    second: Seq<Seq<FrameView>>,
    k: int,
)
    requires
        answers(plan, w, first, behaviour),
        answers(plan, w, second, behaviour),
        0 <= k <= first.len(),
        k <= second.len(),
    ensures
        first.subrange(0, k) == second.subrange(0, k),
    decreases k,
{
    if k == 0 {
        assert(first.subrange(0, 0) =~= second.subrange(0, 0));
    } else {
        lemma_same_prefix(plan, w, behaviour, first, second, k - 1);
        assert(first[k - 1] == second[k - 1]);
        assert(first.subrange(0, k) =~= first.subrange(0, k - 1).push(first[k - 1]));
        assert(second.subrange(0, k) =~= second.subrange(0, k - 1).push(second[k - 1]));
    }
}

/// With plugins that are functions of what they are handed, the walk of a
/// frame is determined: two walks of the same frame through the same plan
/// take the same calls and give the same output.
pub proof fn lemma_walk_determined(
    plan: Plan,
    frame: FrameView,
    behaviour: spec_fn(NodePlan, Seq<FrameView>) -> Seq<FrameView>,
    first: Seq<Seq<FrameView>>,
    first_out: Seq<FrameView>,
    second: Seq<Seq<FrameView>>,
    second_out: Seq<FrameView>,
)
    requires
        walked(plan, frame, first, first_out),
        walked(plan, frame, second, second_out),
        answers(plan, begin(plan, frame), first, behaviour),
        answers(plan, begin(plan, frame), second, behaviour),
    ensures
        first == second,
        first_out == second_out,
{
    let w = begin(plan, frame);
    if first.len() < second.len() {
        lemma_same_prefix(plan, w, behaviour, first, second, first.len() as int);
        assert(first.subrange(0, first.len() as int) =~= first);
        assert(due(plan, replay(plan, w, second.subrange(0, first.len() as int))));
    } else if second.len() < first.len() {
        lemma_same_prefix(plan, w, behaviour, first, second, second.len() as int);
        assert(second.subrange(0, second.len() as int) =~= second);
        assert(due(plan, replay(plan, w, first.subrange(0, second.len() as int))));
    } else {
        lemma_same_prefix(plan, w, behaviour, first, second, first.len() as int);
        assert(first.subrange(0, first.len() as int) =~= first);
        assert(second.subrange(0, second.len() as int) =~= second);
    }
}

/// With plugins that are functions of what they are handed, the output of a
/// run is determined by the plan and the frames.
pub proof fn lemma_run_determined(
    plan: Plan,
    frames: Seq<FrameView>,
    behaviour: spec_fn(NodePlan, Seq<FrameView>) -> Seq<FrameView>,
    first: Seq<Seq<Seq<FrameView>>>,
    second: Seq<Seq<Seq<FrameView>>>,
)
    requires
        run_complete(plan, frames, first),
        run_complete(plan, frames, second),
        forall|i: int|
            0 <= i < frames.len() ==> answers(
                plan,
                begin(plan, frames[i]),
                #[trigger] first[i],
                behaviour,
            ),
        forall|i: int|
            0 <= i < frames.len() ==> answers(
                plan,
                begin(plan, frames[i]),
                #[trigger] second[i],
                behaviour,
            ),
    ensures
        first == second,
        run_output(plan, frames, first) == run_output(plan, frames, second),
{
    assert forall|i: int| 0 <= i < frames.len() implies first[i] == second[i] by {
        assert(walked(
            plan,
            frames[i],
            first[i],
            replay(plan, begin(plan, frames[i]), first[i]).out,
        ));
        assert(walked(
            plan,
            frames[i],
            second[i],
            replay(plan, begin(plan, frames[i]), second[i]).out,
        ));
        lemma_walk_determined(
            plan,
            frames[i],
            behaviour,
            first[i],
            replay(plan, begin(plan, frames[i]), first[i]).out,
            second[i],
            replay(plan, begin(plan, frames[i]), second[i]).out,
        );
    }
    assert(first =~= second);
}

/// A plan of one chain with one filter, which takes the source frames and
/// feeds the output.
pub open spec fn single_filter(plan: Plan) -> bool {
    &&& plan.chains.len() == 1
    &&& plan.order == seq![0int]
    &&& plan.chains[0].nodes.len() == 1
    &&& plan.chains[0].entry
    &&& plan.chains[0].targets.len() == 0
}

/// The results of a run in which every call hands back the one frame that
/// it was given.
pub open spec fn identity_results(frames: Seq<FrameView>) -> Seq<Seq<Seq<FrameView>>> {
    Seq::new(frames.len(), |i: int| seq![seq![frames[i]]])
}

/// Through a single filter a frame takes one call: the filter is handed the
/// frame, and where it hands the frame back, the frame is the output.
pub proof fn lemma_identity_walk(plan: Plan, frame: FrameView)
    requires
        single_filter(plan),
    ensures
        due(plan, begin(plan, frame)),
        call_input(plan, begin(plan, frame)) == seq![frame],
        walked(plan, frame, seq![seq![frame]], seq![frame]),
{
    reveal_with_fuel(settle, 4);
    reveal_with_fuel(replay, 2);
    reveal_with_fuel(deliver, 1);
    let inbox = Seq::new(
        plan.chains.len(),
        |c: int|
            if plan.chains[c].entry {
                seq![frame]
            } else {
                Seq::<FrameView>::empty()
            },
    );
    let fresh = WalkView {
        inbox,
        out: Seq::empty(),
        pos: 0,
        node: 0,
        pending: Seq::empty(),
        produced: Seq::empty(),
    };
    let first = chain_started(plan, fresh, 0);
    assert(first.pending == seq![frame]);
    assert(settle(plan, first) == first);
    assert(begin(plan, frame) == first);
    let results = seq![seq![frame]];
    assert(results.drop_last() =~= Seq::<Seq<FrameView>>::empty());
    assert(replay(plan, first, results) == step(plan, first, seq![frame]));
    assert forall|k: int| 0 <= k < results.len() implies due(
        plan,
        replay(plan, first, #[trigger] results.subrange(0, k)),
    ) by {
        assert(results.subrange(0, 0) =~= Seq::<Seq<FrameView>>::empty());
    }
    let t = taken(plan, first);
    assert(t.pending =~= Seq::<FrameView>::empty());
    let x = WalkView {
        inbox: t.inbox,
        out: t.out,
        pos: t.pos,
        node: t.node,
        pending: t.pending,
        produced: t.produced + seq![frame],
    };
    assert(x.produced =~= seq![frame]);
    let a = advanced(x);
    assert(settle(plan, x) == settle(plan, a));
    let r = routed(plan, a);
    assert(settle(plan, a) == settle(plan, r));
    assert(r.pos == 1);
    assert(r.out =~= seq![frame]);
    assert(settle(plan, r) == r);
}

/// Through a single filter that hands every frame back unchanged, as many
/// frames come out as went in, and they are the same frames in the same
/// order.
pub proof fn lemma_identity_run(plan: Plan, frames: Seq<FrameView>)
    requires
        single_filter(plan),
    ensures
        run_complete(plan, frames, identity_results(frames)),
        run_output(plan, frames, identity_results(frames)) == frames,
    decreases frames.len(),
{
    let results = identity_results(frames);
    assert forall|i: int| 0 <= i < frames.len() implies walked(
        plan,
        #[trigger] frames[i],
        results[i],
        replay(plan, begin(plan, frames[i]), results[i]).out,
    ) by {
        lemma_identity_walk(plan, frames[i]);
    }
    if frames.len() > 0 {
        let front = frames.drop_last();
        lemma_identity_run(plan, front);
        lemma_identity_walk(plan, frames.last());
        assert(results.drop_last() =~= identity_results(front));
        assert(front + seq![frames.last()] =~= frames);
    }
}

/// `result` is something that the plugin of the call that is due at `at`
/// may give on the frames and the argument text of that call.
pub open spec fn admitted<'a, 'r, M, P: Plugin>(
    graph: &ResolvedGraph<'a, 'r, M, P>,
    at: WalkView,
    result: Seq<FrameView>,
) -> bool {
    let node = running_nodes(graph@, at)[at.node];
    match graph.registry().plugin_at(node.slot) {
        Some(plugin) => if node.multi_input {
            plugin.transforms_all(at.pending, node.args, result)
        } else {
            plugin.transforms(at.pending[0], node.args, result)
        },
        None => false,
    }
}

/// Each of `results` is what the plugin of the call that was due gave, on
/// the frames and the argument text of that call.
pub open spec fn given_by<'a, 'r, M, P: Plugin>(
    graph: &ResolvedGraph<'a, 'r, M, P>,
    w: WalkView,
    results: Seq<Seq<FrameView>>,
) -> bool {
    forall|k: int|
        0 <= k < results.len() ==> admitted(
            graph,
            replay(graph@, w, #[trigger] results.subrange(0, k)),
            results[k],
        )
}

/// In each walk of a run the results are what the plugins gave.
pub open spec fn run_given_by<'a, 'r, M, P: Plugin>(
    graph: &ResolvedGraph<'a, 'r, M, P>,
    frames: Seq<FrameView>,
    results: Seq<Seq<Seq<FrameView>>>,
) -> bool {
    forall|i: int|
        0 <= i < frames.len() ==> given_by(graph, begin(graph@, frames[i]), #[trigger] results[i])
}

/// The filter of a single-filter plan hands back what it is handed: every
/// result that its plugin may give is the frames of the call.
pub open spec fn hands_back<'a, 'r, M, P: Plugin>(graph: &ResolvedGraph<'a, 'r, M, P>) -> bool {
    let node = graph@.chains[0].nodes[0];
    match graph.registry().plugin_at(node.slot) {
        Some(plugin) => if node.multi_input {
            forall|frames: Seq<FrameView>, args: Option<Seq<char>>, out: Seq<FrameView>| #[trigger]
                plugin.transforms_all(frames, args, out) ==> out == frames
        } else {
            forall|frame: FrameView, args: Option<Seq<char>>, out: Seq<FrameView>| #[trigger]
                plugin.transforms(frame, args, out) ==> out == seq![frame]
        },
        None => false,
    }
}

/// A run through one filter that hands back what it is handed: the filter
/// is called once for each frame, on that frame, and the output holds the
/// frames that went in, each once, in their order.
pub proof fn lemma_identity_filter<'a, 'r, M, P: Plugin>(
    graph: &ResolvedGraph<'a, 'r, M, P>,
    frames: Seq<FrameView>,
    results: Seq<Seq<Seq<FrameView>>>,
)
    requires
        single_filter(graph@),
        hands_back(graph),
        run_complete(graph@, frames, results),
        run_given_by(graph, frames, results),
    ensures
        results == identity_results(frames),
        run_output(graph@, frames, results) == frames,
{
    let plan = graph@;
    let same = |node: NodePlan, input: Seq<FrameView>| input;
    let wanted = identity_results(frames);
    lemma_identity_run(plan, frames);
    assert forall|i: int| 0 <= i < frames.len() implies answers(
        plan,
        begin(plan, frames[i]),
        #[trigger] results[i],
        same,
    ) by {
        let w = begin(plan, frames[i]);
        let r = results[i];
        assert(walked(plan, frames[i], r, replay(plan, w, r).out));
        assert forall|k: int| 0 <= k < r.len() implies {
            let at = replay(plan, w, r.subrange(0, k));
            #[trigger] r[k] == same(running_nodes(plan, at)[at.node], call_input(plan, at))
        } by {
            let at = replay(plan, w, r.subrange(0, k));
            assert(due(plan, at));
            assert(admitted(graph, at, r[k]));
            assert(plan.order[at.pos] == 0);
        }
    }
    assert forall|i: int| 0 <= i < frames.len() implies answers(
        plan,
        begin(plan, frames[i]),
        #[trigger] wanted[i],
        same,
    ) by {
        let w = begin(plan, frames[i]);
        lemma_identity_walk(plan, frames[i]);
        assert forall|k: int| 0 <= k < wanted[i].len() implies {
            let at = replay(plan, w, wanted[i].subrange(0, k));
            #[trigger] wanted[i][k] == same(
                running_nodes(plan, at)[at.node],
                call_input(plan, at),
            )
        } by {
            assert(wanted[i].subrange(0, 0) =~= Seq::<Seq<FrameView>>::empty());
        }
    }
    lemma_run_determined(plan, frames, same, results, wanted);
}

/// The views of the frames in each inbox.
pub open spec fn box_views(inbox: Seq<Vec<Frame>>) -> Seq<Seq<FrameView>> {
    Seq::new(inbox.len(), |c: int| frame_views(inbox[c]@))
}

/// A second copy of each frame.
fn copy_frames(frames: &Vec<Frame>) -> (copies: Vec<Frame>)
    ensures
        frame_views(copies@) == frame_views(frames@),
{
    let mut copies: Vec<Frame> = Vec::new();
    let mut i: usize = 0;
    while i < frames.len()
        invariant
            i <= frames.len(),
            copies.len() == i,
            forall|k: int| 0 <= k < i ==> (#[trigger] copies@[k])@ == frames@[k]@,
        decreases frames.len() - i,
    {
        copies.push(frames[i].duplicate());
        i = i + 1;
    }
    proof {
        assert(frame_views(copies@) =~= frame_views(frames@));
    }
    copies
}

/// Puts `frames` into the inbox of each of `targets`: copies for all but
/// the last, the frames themselves for the last.
fn deliver_all(inbox: &mut Vec<Vec<Frame>>, targets: &Vec<usize>, frames: Vec<Frame>)
    requires
        forall|i: int| 0 <= i < targets@.len() ==> (#[trigger] targets@[i]) < old(inbox)@.len(),
    ensures
        final(inbox)@.len() == old(inbox)@.len(),
        box_views(final(inbox)@) == deliver(
            box_views(old(inbox)@),
            as_ints(targets@),
            frame_views(frames@),
        ),
{
    let ghost start = box_views(inbox@);
    let ghost goals = as_ints(targets@);
    let ghost views = frame_views(frames@);
    let mut frames = frames;
    let mut i: usize = 0;
    proof {
        assert(goals.subrange(0, 0) =~= Seq::<int>::empty());
    }
    while i < targets.len()
        invariant
            i <= targets.len(),
            goals == as_ints(targets@),
            i < targets.len() ==> views == frame_views(frames@),
            inbox@.len() == start.len(),
            forall|k: int| 0 <= k < targets@.len() ==> (#[trigger] targets@[k]) < inbox@.len(),
            box_views(inbox@) == deliver(start, goals.subrange(0, i as int), views),
        decreases targets.len() - i,
    {
        let t = targets[i];
        let ghost before = inbox@;
        if i + 1 < targets.len() {
            let mut copies = copy_frames(&frames);
            inbox[t].append(&mut copies);
        } else {
            inbox[t].append(&mut frames);
        }
        proof {
            assert(goals.subrange(0, i + 1).drop_last() =~= goals.subrange(0, i as int));
            assert(goals.subrange(0, i + 1).last() == t as int);
            assert(frame_views(inbox@[t as int]@) =~= frame_views(before[t as int]@) + views);
            assert(box_views(inbox@) =~= box_views(before).update(
                t as int,
                box_views(before)[t as int] + views,
            ));
        }
        i = i + 1;
    }
    proof {
        assert(goals.subrange(0, targets.len() as int) =~= goals);
    }
}

/// The walk of one source frame through a resolved graph.
pub struct Walk<'g, 'a, 'r, M, P> {
    graph: &'g ResolvedGraph<'a, 'r, M, P>,
    inbox: Vec<Vec<Frame>>,
    out: Vec<Frame>,
    pos: usize,
    node: usize,
    pending: Vec<Frame>,
    produced: Vec<Frame>,
}

impl<'g, 'a, 'r, M, P> View for Walk<'g, 'a, 'r, M, P> {
    type V = WalkView;

    closed spec fn view(&self) -> WalkView {
        WalkView {
            inbox: box_views(self.inbox@),
            out: frame_views(self.out@),
            pos: self.pos as int,
            node: self.node as int,
            pending: frame_views(self.pending@),
            produced: frame_views(self.produced@),
        }
    }
}

impl<'g, 'a, 'r, M, P: Plugin> Walk<'g, 'a, 'r, M, P> {
    /// The graph that is walked.
    pub closed spec fn graph(&self) -> &'g ResolvedGraph<'a, 'r, M, P> {
        self.graph
    }

    /// The walk fits its graph: the graph is well formed, and there is an
    /// inbox for each of its chains.
    pub closed spec fn wf(&self) -> bool {
        &&& self.graph.wf()
        &&& self.inbox@.len() == self.graph@.chains.len()
        &&& self.pos <= self.graph@.order.len()
    }

    /// The walk of `frame` through `graph`, before the first call.
    pub fn begin(graph: &'g ResolvedGraph<'a, 'r, M, P>, frame: Frame) -> (w: Self)
        requires
            graph.wf(),
        ensures
            w.wf(),
            w.graph() == graph,
            w@ == begin(graph@, frame@),
            finished(graph@, w@) || due(graph@, w@),
    {
        let n = graph.chain_count();
        let ghost source = frame@;
        let mut last: usize = n;
        let mut k: usize = 0;
        while k < n
            invariant
                k <= n,
                n == graph@.chains.len(),
                last == n || (last < k && graph@.chains[last as int].entry),
                forall|c: int| last < c < k ==> !graph@.chains[c].entry,
                last == n ==> forall|c: int| 0 <= c < k ==> !graph@.chains[c].entry,
            decreases n - k,
        {
            if graph.is_entry(k) {
                last = k;
            }
            k = k + 1;
        }
        let mut spare: Option<Frame> = Some(frame);
        let mut inbox: Vec<Vec<Frame>> = Vec::new();
        let mut c: usize = 0;
        while c < n
            invariant
                c <= n,
                n == graph@.chains.len(),
                last <= n,
                forall|i: int| last < i < n ==> !graph@.chains[i].entry,
                last == n ==> forall|i: int| 0 <= i < n ==> !graph@.chains[i].entry,
                c <= last ==> spare is Some,
                spare matches Some(f) ==> f@ == source,
                inbox.len() == c,
                forall|k: int|
                    0 <= k < c ==> frame_views((#[trigger] inbox@[k])@) == (if graph@.chains[k].entry {
                        seq![source]
                    } else {
                        Seq::empty()
                    }),
            decreases n - c,
        {
            let mut slot: Vec<Frame> = Vec::new();
            if graph.is_entry(c) {
                if c == last {
                    match spare.take() {
                        Some(f) => {
                            slot.push(f);
                        },
                        None => {},
                    }
                } else {
                    match &spare {
                        Some(f) => {
                            slot.push(f.duplicate());
                        },
                        None => {},
                    }
                }
            }
            proof {
                assert(frame_views(slot@) =~= (if graph@.chains[c as int].entry {
                    seq![source]
                } else {
                    Seq::empty()
                }));
            }
            inbox.push(slot);
            c = c + 1;
        }
        let mut w = Walk {
            graph,
            inbox,
            out: Vec::new(),
            pos: 0,
            node: 0,
            pending: Vec::new(),
            produced: Vec::new(),
        };
        proof {
            assert(w@.inbox =~= Seq::new(
                graph@.chains.len(),
                |c: int|
                    if graph@.chains[c].entry {
                        seq![source]
                    } else {
                        Seq::empty()
                    },
            ));
            assert(w@.out =~= Seq::<FrameView>::empty());
            assert(w@.pending =~= Seq::<FrameView>::empty());
            assert(w@.produced =~= Seq::<FrameView>::empty());
        }
        w.start_chain();
        w.settle();
        w
    }

    /// Whether every chain has run.
    pub fn is_done(&self) -> (b: bool)
        requires
            self.wf(),
        ensures
            b == finished(self.graph()@, self@),
    {
        self.pos >= self.graph.order_len()
    }

    /// The chain and the filter of the call that is due.
    pub fn place(&self) -> (at: (usize, usize))
        requires
            self.wf(),
            due(self.graph()@, self@),
        ensures
            at.0 == self.graph()@.order[self@.pos],
            at.1 == self@.node,
            at.0 < self.graph()@.chains.len(),
            at.1 < self.graph()@.chains[at.0 as int].nodes.len(),
    {
        proof {
            self.graph.lemma_wf();
        }
        (self.graph.order_at(self.pos), self.node)
    }

    /// Takes the frames of the call that is due out of the walk: all that
    /// are pending where the plugin takes several frames per call, else the
    /// first.
    pub fn take(&mut self) -> (input: Vec<Frame>)
        requires
            old(self).wf(),
            due(old(self).graph()@, old(self)@),
        ensures
            final(self).wf(),
            final(self).graph() == old(self).graph(),
            frame_views(input@) == call_input(old(self).graph()@, old(self)@),
            final(self)@ == taken(old(self).graph()@, old(self)@),
    {
        let graph = self.graph;
        proof {
            graph.lemma_wf();
        }
        let ghost before = self@;
        let c = graph.order_at(self.pos);
        let node = graph.node(c, self.node);
        let mut input: Vec<Frame> = Vec::new();
        if node.multi_input() {
            core::mem::swap(&mut input, &mut self.pending);
            proof {
                assert(self@.pending =~= Seq::<FrameView>::empty());
            }
        } else {
            let ghost held = self.pending@;
            let first = self.pending.remove(0);
            input.push(first);
            proof {
                assert(frame_views(input@) =~= seq![before.pending[0]]);
                assert(self.pending@ =~= held.drop_first());
                assert(self@.pending =~= before.pending.drop_first());
            }
        }
        input
    }

    /// Puts the frames that a call gave into the walk, and brings the walk
    /// to the next call or to its end.
    pub fn supply(&mut self, result: Vec<Frame>)
        requires
            old(self).wf(),
        ensures
            final(self).wf(),
            final(self).graph() == old(self).graph(),
            final(self)@ == supplied(old(self).graph()@, old(self)@, frame_views(result@)),
            finished(final(self).graph()@, final(self)@) || due(
                final(self).graph()@,
                final(self)@,
            ),
    {
        let ghost before = self@;
        let ghost held = self.produced@;
        let mut result = result;
        let ghost given = result@;
        self.produced.append(&mut result);
        proof {
            assert(frame_views(self.produced@) =~= frame_views(held) + frame_views(given));
        }
        self.settle();
    }

    /// The frames that the walk has output.
    pub fn finish(self) -> (out: Vec<Frame>)
        ensures
            frame_views(out@) == self@.out,
    {
        self.out
    }

    /// The chain at the walk's place takes up what was delivered to it.
    fn start_chain(&mut self)
        requires
            old(self).wf(),
            old(self).pending@.len() == 0,
            old(self).produced@.len() == 0,
            old(self).node == 0,
        ensures
            final(self).wf(),
            final(self).graph() == old(self).graph(),
            final(self)@ == chain_started(old(self).graph()@, old(self)@, old(self).pos as int),
    {
        let graph = self.graph;
        proof {
            graph.lemma_wf();
        }
        let ghost before = self@;
        if self.pos < graph.order_len() {
            let c = graph.order_at(self.pos);
            let ghost boxes = self.inbox@;
            let ghost held = self.pending@;
            core::mem::swap(&mut self.inbox[c], &mut self.pending);
            proof {
                assert(self.inbox@.len() == boxes.len());
                assert(self.inbox@[c as int]@ == held);
                assert(frame_views(held) =~= Seq::<FrameView>::empty());
                assert forall|k: int| 0 <= k < boxes.len() && k != c implies self.inbox@[k]
                    == boxes[k] by {}
                assert(self@.inbox =~= before.inbox.update(c as int, Seq::empty()));
                assert(self@.pending =~= before.inbox[c as int]);
                assert(self@.produced =~= Seq::<FrameView>::empty());
            }
        } else {
            proof {
                assert(self@.pending =~= Seq::<FrameView>::empty());
                assert(self@.produced =~= Seq::<FrameView>::empty());
            }
        }
    }

    /// The running chain hands its frames on, and the next chain starts.
    fn route(&mut self)
        requires
            old(self).wf(),
            old(self).pos < old(self).graph()@.order.len(),
        ensures
            final(self).wf(),
            final(self).graph() == old(self).graph(),
            final(self)@ == routed(old(self).graph()@, old(self)@),
    {
        let graph = self.graph;
        proof {
            graph.lemma_wf();
        }
        let ghost before = self@;
        let n = graph.order_len();
        let c = graph.order_at(self.pos);
        let targets = graph.targets(c);
        let mut frames: Vec<Frame> = Vec::new();
        core::mem::swap(&mut frames, &mut self.pending);
        proof {
            assert forall|i: int| 0 <= i < targets@.len() implies (#[trigger] targets@[i])
                < self.inbox@.len() by {
                assert(as_ints(targets@)[i] == graph@.chains[c as int].targets[i]);
            }
        }
        if targets.len() == 0 {
            let ghost held = self.out@;
            self.out.append(&mut frames);
            proof {
                assert(frame_views(self.out@) =~= frame_views(held) + before.pending);
                assert(as_ints(targets@) =~= Seq::<int>::empty());
            }
        } else {
            deliver_all(&mut self.inbox, targets, frames);
        }
        self.produced = Vec::new();
        self.pos = self.pos + 1;
        self.node = 0;
        proof {
            assert(self@.pending =~= Seq::<FrameView>::empty());
            assert(self@.produced =~= Seq::<FrameView>::empty());
        }
        self.start_chain();
    }

    /// Brings the walk to where the next plugin call is due, or to its end.
    fn settle(&mut self)
        requires
            old(self).wf(),
        ensures
            final(self).wf(),
            final(self).graph() == old(self).graph(),
            final(self)@ == settle(old(self).graph()@, old(self)@),
            finished(final(self).graph()@, final(self)@) || due(final(self).graph()@, final(self)@),
    {
        let graph = self.graph;
        let ghost plan = graph@;
        let ghost start = self@;
        let n = graph.order_len();
        proof {
            graph.lemma_wf();
        }
        loop
            invariant_except_break
                settle(plan, self@) == settle(plan, start),
            invariant
                self.wf(),
                self.graph() == graph,
                plan == graph@,
                n == plan.order.len(),
                plan_wf(plan, graph.registry()@.len() as int),
            ensures
                self@ == settle(plan, start),
                finished(plan, self@) || due(plan, self@),
            decreases plan.order.len() - self@.pos, running_nodes(plan, self@).len() - self@.node,
        {
            if self.pos >= n {
                break ;
            }
            let c = graph.order_at(self.pos);
            let count = graph.node_count(c);
            if self.node < count {
                if self.pending.len() > 0 {
                    break ;
                }
                let ghost before = self@;
                self.node = self.node + 1;
                core::mem::swap(&mut self.pending, &mut self.produced);
                proof {
                    assert(self@.produced =~= Seq::<FrameView>::empty());
                    assert(self@ == advanced(before));
                }
            } else {
                self.route();
            }
        }
    }
}

/// Walks `frame` through `graph`: calls, one after the other, the plugin
/// of each call that is due, on the frames that `Walk::take` hands out, and
/// supplies what came back. Returns the frames that reach the output.
///
/// Whatever the plugins return, the output is what the walk makes of it:
/// there are results, each what the plugin of a call that was due gave on
/// the frames and the argument text of that call, and the walk that these
/// results make ends with the output that is returned.
pub fn process<'a, 'r, M, P: Plugin>(graph: &ResolvedGraph<'a, 'r, M, P>, frame: Frame) -> (out:
    Vec<Frame>)
    requires
        graph.wf(),
    ensures
        exists|results: Seq<Seq<FrameView>>|
            walked(graph@, frame@, results, frame_views(out@)) && given_by(
                graph,
                begin(graph@, frame@),
                results,
            ),
{
    let ghost plan = graph@;
    let ghost source = frame@;
    let ghost start = begin(plan, source);
    let mut walk = Walk::begin(graph, frame);
    let ghost mut results: Seq<Seq<FrameView>> = Seq::empty();
    proof {
        graph.lemma_wf();
    }
    while !walk.is_done()
        invariant
            graph.wf(),
            walk.wf(),
            walk.graph() == graph,
            plan == graph@,
            plan_wf(plan, graph.registry()@.len() as int),
            walk@ == replay(plan, start, results),
            all_due(plan, start, results),
            given_by(graph, start, results),
            0 <= walk@.pos <= plan.order.len(),
            0 <= walk@.node,
            finished(plan, walk@) || due(plan, walk@),
        decreases
                plan.order.len() - walk@.pos,
                running_nodes(plan, walk@).len() - walk@.node,
                walk@.pending.len(),
    {
        let ghost before = walk@;
        let (c, k) = walk.place();
        let node = graph.node(c, k);
        let plugin = graph.plugin(c, k);
        let mut input = walk.take();
        let args = node.args();
        proof {
            assert(node@ == running_nodes(plan, before)[before.node]);
            assert(text_view(args) == node@.args);
            assert(graph.registry().plugin_at(node@.slot) == Some(*plugin));
        }
        let result = if node.multi_input() {
            let result = plugin.get_frames(input, args);
            proof {
                assert(plugin.transforms_all(before.pending, node@.args, frame_views(result@)));
            }
            result
        } else {
            let ghost handed = input@;
            proof {
                assert(frame_views(handed).len() == handed.len());
            }
            let first = input.remove(0);
            proof {
                assert(frame_views(handed)[0] == handed[0]@);
                assert(call_input(plan, before) == seq![before.pending[0]]);
                assert(first@ == before.pending[0]);
            }
            let result = plugin.get_frame(first, &args);
            proof {
                assert(plugin.transforms(before.pending[0], node@.args, frame_views(result@)));
            }
            result
        };
        proof {
            let given = frame_views(result@);
            let t = taken(plan, before);
            let x = WalkView {
                inbox: t.inbox,
                out: t.out,
                pos: t.pos,
                node: t.node,
                pending: t.pending,
                produced: t.produced + given,
            };
            lemma_settle_forward(plan, x);
            let more = results.push(given);
            assert(more.drop_last() =~= results);
            assert(admitted(graph, before, given));
            assert forall|k: int| 0 <= k < more.len() implies due(
                plan,
                replay(plan, start, #[trigger] more.subrange(0, k)),
            ) && admitted(graph, replay(plan, start, more.subrange(0, k)), more[k]) by {
                if k < results.len() {
                    assert(more.subrange(0, k) =~= results.subrange(0, k));
                } else {
                    assert(more.subrange(0, k) =~= results);
                }
            }
            results = more;
        }
        walk.supply(result);
    }
    let out = walk.finish();
    proof {
        assert(walked(plan, source, results, frame_views(out@)) && given_by(
            graph,
            begin(plan, source),
            results,
        ));
    }
    out
}

/// Runs `frames` through `graph`, one after the other: each frame is walked
/// to its end before the next is taken up. The output holds the outputs of
/// the walks in the order of the frames.
pub fn run<'a, 'r, M, P: Plugin>(graph: &ResolvedGraph<'a, 'r, M, P>, frames: Vec<Frame>) -> (out:
    Vec<Frame>)
    requires
        graph.wf(),
    ensures
        exists|results: Seq<Seq<Seq<FrameView>>>|
            run_complete(graph@, frame_views(frames@), results) && frame_views(out@) == run_output(
                graph@,
                frame_views(frames@),
                results,
            ) && run_given_by(graph, frame_views(frames@), results),
{
    let ghost plan = graph@;
    let ghost all = frame_views(frames@);
    let mut rest = frames;
    let mut out: Vec<Frame> = Vec::new();
    let ghost mut results: Seq<Seq<Seq<FrameView>>> = Seq::empty();
    let ghost mut done: int = 0;
    proof {
        assert(all.subrange(0, 0) =~= Seq::<FrameView>::empty());
        assert(frame_views(out@) =~= Seq::<FrameView>::empty());
        assert(frame_views(rest@) =~= all.subrange(0, all.len() as int));
    }
    while rest.len() > 0
        invariant
            graph.wf(),
            plan == graph@,
            0 <= done <= all.len(),
            frame_views(rest@) == all.subrange(done, all.len() as int),
            run_complete(plan, all.subrange(0, done), results),
            run_given_by(graph, all.subrange(0, done), results),
            frame_views(out@) == run_output(plan, all.subrange(0, done), results),
        decreases rest.len(),
    {
        let ghost held = rest@;
        let ghost sofar = out@;
        proof {
            assert(frame_views(held).len() == held.len());
            assert(done < all.len());
        }
        let frame = rest.remove(0);
        let ghost source = frame@;
        let mut part = process(graph, frame);
        proof {
            assert(source == frame_views(held)[0]);
            assert(source == all.subrange(done, all.len() as int)[0]);
            assert(source == all[done]);
            let r = choose|r: Seq<Seq<FrameView>>|
                walked(plan, source, r, frame_views(part@)) && given_by(
                    graph,
                    begin(plan, source),
                    r,
                );
            let next = all.subrange(0, done + 1);
            let more = results.push(r);
            assert(next.drop_last() =~= all.subrange(0, done));
            assert(more.drop_last() =~= results);
            assert(next.last() == source);
            assert(rest@ =~= held.drop_first());
            assert(frame_views(rest@) =~= all.subrange(done + 1, all.len() as int)) by {
                assert forall|i: int| 0 <= i < rest@.len() implies frame_views(rest@)[i]
                    == all.subrange(done + 1, all.len() as int)[i] by {
                    assert(rest@[i] == held[i + 1]);
                    assert(frame_views(held)[i + 1] == all.subrange(done, all.len() as int)[i + 1]);
                }
            }
            assert forall|i: int| 0 <= i < next.len() implies walked(
                plan,
                #[trigger] next[i],
                more[i],
                replay(plan, begin(plan, next[i]), more[i]).out,
            ) by {
                if i < done {
                    assert(next[i] == all.subrange(0, done)[i]);
                    assert(more[i] == results[i]);
                }
            }
            assert forall|i: int| 0 <= i < next.len() implies given_by(
                graph,
                begin(plan, next[i]),
                #[trigger] more[i],
            ) by {
                if i < done {
                    assert(next[i] == all.subrange(0, done)[i]);
                    assert(more[i] == results[i]);
                }
            }
            results = more;
            done = done + 1;
        }
        let ghost piece = part@;
        out.append(&mut part);
        proof {
            assert(frame_views(out@) =~= frame_views(sofar) + frame_views(piece));
        }
    }
    proof {
        assert(all.subrange(0, all.len() as int) =~= all);
    }
    out
}

} // verus!
