//! The text of a filtergraph, and the law that binds it to the parser: a
//! well-formed graph is what its text parses to.
use vstd::prelude::*;
use vstd::string::StringExecFns;
use crate::graph::{chain_views, Chain, FilterGraph, FilterInvocation, NodeView};
use crate::parse::{
    first_pad_error, has_brace, has_bracket, pad_error, pad_names, parse_body, parse_chain,
    parse_chains, parse_graph, parse_node, parse_nodes, split_leading, split_pads, split_trailing,
    token_error, PadSplit,
    ParseError,
};
use crate::text::{
    end_of_last, free_of, index_of, is_blank, join, lemma_end_of_last_at,
    lemma_end_of_last_bound, lemma_index_of_at,
    lemma_index_of_bound, lemma_index_of_free, lemma_join_free, lemma_split_join,
    lemma_split_pieces, lemma_trim_id, lemma_trim_props, split, trim, trimmed, views,
};

verus! {

/// A pad list in brackets, or nothing where there is no pad.
pub open spec fn render_pads(pads: Seq<Seq<char>>) -> Seq<char> {
    if pads.len() == 0 {
        Seq::empty()
    } else {
        seq!['['] + join(pads, ':') + seq![']']
    }
}

/// An argument block in braces, or nothing where there is none.
pub open spec fn render_args(args: Option<Seq<char>>) -> Seq<char> {
    match args {
        Some(a) => seq!['{'] + a + seq!['}'],
        None => Seq::empty(),
    }
}

/// The filterspec of a filter invocation.
pub open spec fn render_node(n: NodeView) -> Seq<char> {
    render_pads(n.inpads) + n.name + render_args(n.args) + render_pads(n.outpads)
}

/// The filterspecs of a chain's invocations.
pub open spec fn render_nodes(c: Seq<NodeView>) -> Seq<Seq<char>> {
    Seq::new(c.len(), |i: int| render_node(c[i]))
}

/// The text of a chain: its filterspecs with `,` between them.
pub open spec fn render_chain(c: Seq<NodeView>) -> Seq<char> {
    join(render_nodes(c), ',')
}

/// The texts of a graph's chains.
pub open spec fn render_chains(g: Seq<Seq<NodeView>>) -> Seq<Seq<char>> {
    Seq::new(g.len(), |i: int| render_chain(g[i]))
}

/// The text of a graph: its chains with `;` between them.
pub open spec fn render_graph(g: Seq<Seq<NodeView>>) -> Seq<char> {
    join(render_chains(g), ';')
}

/// A filter name: not empty, trimmed, and free of brackets, braces and of
/// the two separators.
pub open spec fn wf_name(t: Seq<char>) -> bool {
    &&& t.len() > 0
    &&& trimmed(t)
    &&& free_of(t, '[')
    &&& free_of(t, ']')
    &&& free_of(t, '{')
    &&& free_of(t, '}')
    &&& free_of(t, ';')
    &&& free_of(t, ',')
}

/// A name that a pad list can hold: not empty, trimmed, and free of
/// brackets and of `:`.
pub open spec fn listable(t: Seq<char>) -> bool {
    &&& t.len() > 0
    &&& trimmed(t)
    &&& free_of(t, '[')
    &&& free_of(t, ']')
    &&& free_of(t, ':')
}

/// Every name of the list can stand in a pad list.
pub open spec fn all_listable(pads: Seq<Seq<char>>) -> bool {
    forall|i: int| 0 <= i < pads.len() ==> listable(#[trigger] pads[i])
}

/// A pad name of a filtergraph: a name that a pad list can hold, free of
/// the two separators.
pub open spec fn wf_pad(t: Seq<char>) -> bool {
    &&& listable(t)
    &&& free_of(t, ';')
    &&& free_of(t, ',')
}

/// Every name of the list is a pad name.
pub open spec fn wf_pads(pads: Seq<Seq<char>>) -> bool {
    forall|i: int| 0 <= i < pads.len() ==> wf_pad(#[trigger] pads[i])
}

/// An argument text: anything without `;` and `,`.
pub open spec fn wf_args(args: Option<Seq<char>>) -> bool {
    match args {
        Some(a) => free_of(a, ';') && free_of(a, ','),
        None => true,
    }
}

/// A filter invocation that a filterspec can denote.
pub open spec fn wf_node(n: NodeView) -> bool {
    wf_name(n.name) && wf_args(n.args) && wf_pads(n.inpads) && wf_pads(n.outpads)
}

/// A chain that a text can denote: not empty, every invocation well formed.
pub open spec fn wf_chain(c: Seq<NodeView>) -> bool {
    c.len() > 0 && forall|i: int| 0 <= i < c.len() ==> wf_node(#[trigger] c[i])
}

/// A graph that a text can denote: at least one chain, no chain empty, every
/// name a name, and no separator inside an argument text.
pub open spec fn wf_graph(g: Seq<Seq<NodeView>>) -> bool {
    g.len() > 0 && forall|i: int| 0 <= i < g.len() ==> wf_chain(#[trigger] g[i])
}

/// Appends a pad list in brackets, or nothing where there is no pad.
fn push_pads(out: &mut String, pads: &Vec<&str>)
    ensures
        final(out)@ == old(out)@ + render_pads(views(pads@)),
{
    let ghost base = out@;
    let ghost ps = views(pads@);
    if pads.len() == 0 {
        proof {
            assert(base + render_pads(ps) =~= base);
        }
        return ;
    }
    proof {
        reveal_strlit("[");
        reveal_strlit(":");
        reveal_strlit("]");
    }
    out.append("[");
    let mut i: usize = 0;
    while i < pads.len()
        invariant
            i <= pads.len(),
            ps == views(pads@),
            ":"@ =~= seq![':'],
            out@ == base + seq!['['] + join(ps.subrange(0, i as int), ':'),
        decreases pads.len() - i,
    {
        if i > 0 {
            out.append(":");
        }
        out.append(pads[i]);
        proof {
            let done = ps.subrange(0, i as int);
            let next = ps.subrange(0, i + 1);
            assert(next.drop_last() =~= done);
            assert(next.last() == pads@[i as int]@);
            if i == 0 {
                assert(join(done, ':') =~= Seq::<char>::empty());
                assert(out@ =~= base + seq!['['] + join(next, ':'));
            } else {
                assert(out@ =~= base + seq!['['] + join(next, ':'));
            }
        }
        i = i + 1;
    }
    out.append("]");
    proof {
        assert(ps.subrange(0, pads.len() as int) =~= ps);
        assert(out@ =~= base + render_pads(ps));
    }
}

/// Appends the filterspec of `n`.
fn push_node<'a>(out: &mut String, n: &FilterInvocation<'a>)
    ensures
        final(out)@ == old(out)@ + render_node(n@),
{
    let ghost base = out@;
    push_pads(out, &n.inpads);
    out.append(n.name);
    match n.args {
        Some(a) => {
            proof {
                reveal_strlit("{");
                reveal_strlit("}");
            }
            out.append("{");
            out.append(a);
            out.append("}");
            proof {
                assert(out@ =~= base + render_pads(n@.inpads) + n@.name + render_args(n@.args));
            }
        },
        None => {
            proof {
                assert(out@ =~= base + render_pads(n@.inpads) + n@.name + render_args(n@.args));
            }
        },
    }
    push_pads(out, &n.outpads);
    proof {
        assert(out@ =~= base + render_node(n@));
    }
}

/// Appends the text of `c`.
fn push_chain<'a>(out: &mut String, c: &Chain<'a>)
    ensures
        final(out)@ == old(out)@ + render_chain(c@),
{
    let ghost base = out@;
    let ghost texts = render_nodes(c@);
    proof {
        reveal_strlit(",");
        assert(base + join(texts.subrange(0, 0), ',') =~= base);
    }
    let mut i: usize = 0;
    while i < c.nodes.len()
        invariant
            i <= c.nodes.len(),
            texts == render_nodes(c@),
            texts.len() == c.nodes.len(),
            ","@ =~= seq![','],
            out@ == base + join(texts.subrange(0, i as int), ','),
        decreases c.nodes.len() - i,
    {
        if i > 0 {
            out.append(",");
        }
        push_node(out, &c.nodes[i]);
        proof {
            let done = texts.subrange(0, i as int);
            let next = texts.subrange(0, i + 1);
            assert(next.drop_last() =~= done);
            assert(next.last() == render_node(c.nodes@[i as int]@));
            if i == 0 {
                assert(join(done, ',') =~= Seq::<char>::empty());
                assert(out@ =~= base + join(next, ','));
            } else {
                assert(out@ =~= base + join(next, ','));
            }
        }
        i = i + 1;
    }
    proof {
        assert(texts.subrange(0, c.nodes.len() as int) =~= texts);
    }
}

impl<'a> FilterGraph<'a> {
    /// The text of the graph: every chain's filterspecs with `,` between
    /// them, and `;` between the chains.
    pub fn render(&self) -> (text: String)
        ensures
            text@ == render_graph(self@),
    {
        let chains = self.chains();
        let mut out = String::new();
        let ghost texts = render_chains(chain_views(chains@));
        proof {
            reveal_strlit(";");
            assert(out@ =~= join(texts.subrange(0, 0), ';'));
        }
        let mut i: usize = 0;
        while i < chains.len()
            invariant
                i <= chains.len(),
                texts == render_chains(chain_views(chains@)),
                texts.len() == chains.len(),
                ";"@ =~= seq![';'],
                out@ == join(texts.subrange(0, i as int), ';'),
            decreases chains.len() - i,
        {
            if i > 0 {
                out.append(";");
            }
            push_chain(&mut out, &chains[i]);
            proof {
                let done = texts.subrange(0, i as int);
                let next = texts.subrange(0, i + 1);
                assert(next.drop_last() =~= done);
                assert(next.last() == render_chain(chains@[i as int]@));
                if i == 0 {
                    assert(join(done, ';') =~= Seq::<char>::empty());
                    assert(out@ =~= join(next, ';'));
                } else {
                    assert(out@ =~= join(next, ';'));
                }
            }
            i = i + 1;
        }
        proof {
            assert(texts.subrange(0, chains.len() as int) =~= texts);
        }
        out
    }
}

proof fn lemma_name_has_no_error(t: Seq<char>)
    requires
        wf_name(t),
    ensures
        token_error(t) is None,
{
}

proof fn lemma_pads_have_no_error(pads: Seq<Seq<char>>)
    requires
        all_listable(pads),
    ensures
        first_pad_error(pads) is None,
    decreases pads.len(),
{
    if pads.len() > 0 {
        let front = pads.drop_last();
        assert forall|i: int| 0 <= i < front.len() implies listable(#[trigger] front[i]) by {
            assert(front[i] == pads[i]);
        }
        lemma_pads_have_no_error(front);
        assert(listable(pads.last()));
    }
}

proof fn lemma_wf_pads_listable(pads: Seq<Seq<char>>)
    requires
        wf_pads(pads),
    ensures
        all_listable(pads),
{
    assert forall|i: int| 0 <= i < pads.len() implies listable(#[trigger] pads[i]) by {
        assert(wf_pad(pads[i]));
    }
}

/// A joined pad list splits into its pads again.
proof fn lemma_pad_names_join(pads: Seq<Seq<char>>)
    requires
        pads.len() > 0,
        all_listable(pads),
    ensures
        pad_names(join(pads, ':')) == pads,
{
    assert forall|i: int| 0 <= i < pads.len() implies free_of(#[trigger] pads[i], ':') by {
        assert(listable(pads[i]));
    }
    lemma_split_join(pads, ':');
    assert forall|i: int| 0 <= i < pads.len() implies trim(pads[i]) == pads[i] by {
        assert(listable(pads[i]));
        lemma_trim_id(pads[i]);
    }
    assert(pad_names(join(pads, ':')) =~= pads);
}

proof fn lemma_pads_text_free(pads: Seq<Seq<char>>, c: char)
    requires
        c == '[' || c == ']' ==> all_listable(pads),
        c == ';' || c == ',' ==> wf_pads(pads),
        c == '[' || c == ']' || c == ';' || c == ',',
    ensures
        free_of(join(pads, ':'), c),
{
    assert forall|i: int| 0 <= i < pads.len() implies free_of(#[trigger] pads[i], c) by {
        if c == '[' || c == ']' {
            assert(listable(pads[i]));
        } else {
            assert(wf_pad(pads[i]));
        }
    }
    lemma_join_free(pads, ':', c);
}

/// Pads in front of any text are found again, and the text behind them.
proof fn lemma_leading(pads: Seq<Seq<char>>, tail: Seq<char>)
    requires
        all_listable(pads),
        pads.len() == 0 ==> tail.len() == 0 || tail[0] != '[',
    ensures
        split_leading(render_pads(pads) + tail) == Ok::<(Seq<Seq<char>>, Seq<char>), ParseError>(
            (pads, tail),
        ),
{
    let x = render_pads(pads) + tail;
    if pads.len() == 0 {
        assert(x =~= tail);
        assert(pads =~= Seq::<Seq<char>>::empty());
    } else {
        let inner = join(pads, ':');
        lemma_pads_text_free(pads, ']');
        let k = 1 + inner.len() as int;
        assert forall|i: int| 0 <= i < k implies x[i] != ']' by {
            if i > 0 {
                assert(x[i] == inner[i - 1]);
            }
        }
        lemma_index_of_at(x, ']', k);
        assert(x.subrange(1, k) =~= inner);
        assert(x.subrange(k + 1, x.len() as int) =~= tail);
        lemma_pad_names_join(pads);
    }
}

/// Pads behind any text are found again, and the text in front of them.
proof fn lemma_trailing(head: Seq<char>, pads: Seq<Seq<char>>)
    requires
        all_listable(pads),
        pads.len() == 0 ==> head.len() == 0 || head.last() != ']',
    ensures
        split_trailing(head + render_pads(pads)) == Ok::<(Seq<Seq<char>>, Seq<char>), ParseError>(
            (pads, head),
        ),
{
    let x = head + render_pads(pads);
    if pads.len() == 0 {
        assert(x =~= head);
        assert(pads =~= Seq::<Seq<char>>::empty());
    } else {
        let inner = join(pads, ':');
        lemma_pads_text_free(pads, '[');
        let j = head.len() as int + 1;
        assert(x[j - 1] == '[');
        assert forall|i: int| j <= i < x.len() implies x[i] != '[' by {
            if i < x.len() - 1 {
                assert(x[i] == inner[i - j]);
            }
        }
        lemma_end_of_last_at(x, '[', j);
        assert(x.subrange(j, x.len() - 1) =~= inner);
        assert(x.subrange(0, j - 1) =~= head);
        lemma_pad_names_join(pads);
    }
}

/// Pads written around a text are found again, with the text between them
/// as it stands: for pad lists of names that a list can hold and a text
/// without brackets, `[ins]text[outs]` is taken apart into the three. Where
/// there are no input pads, the text must not be empty in front of output
/// pads, since these would then stand at the start.
pub proof fn lemma_split_pads_render(ins: Seq<Seq<char>>, text: Seq<char>, outs: Seq<Seq<char>>)
    requires
        all_listable(ins),
        all_listable(outs),
        free_of(text, '['),
        free_of(text, ']'),
        ins.len() == 0 && outs.len() > 0 ==> text.len() > 0,
    ensures
        split_pads(render_pads(ins) + text + render_pads(outs)) == Ok::<PadSplit, ParseError>(
            PadSplit { inpads: ins, outpads: outs, rest: text },
        ),
{
    let tail = text + render_pads(outs);
    assert(render_pads(ins) + text + render_pads(outs) =~= render_pads(ins) + tail);
    if ins.len() == 0 && tail.len() > 0 {
        if text.len() > 0 {
            assert(tail[0] == text[0]);
        } else {
            assert(outs.len() == 0);
            assert(tail =~= text);
        }
    }
    lemma_leading(ins, tail);
    if outs.len() == 0 && text.len() > 0 {
        assert(text.last() != ']');
    }
    lemma_trailing(text, outs);
    lemma_pads_have_no_error(ins);
    lemma_pads_have_no_error(outs);
}

/// A text that neither begins with `[` nor ends with `]` has no pads, and
/// is itself what stands between them.
pub proof fn lemma_split_pads_plain(s: Seq<char>)
    requires
        s.len() == 0 || (s[0] != '[' && s.last() != ']'),
    ensures
        split_pads(s) == Ok::<PadSplit, ParseError>(
            PadSplit { inpads: Seq::empty(), outpads: Seq::empty(), rest: s },
        ),
{
}

/// What `split_pads` gives lies in the text as it is given: the rest is a
/// slice of the text, the input pads are the names of a bracket that opens
/// the text, the output pads are the names of a bracket that closes it, and
/// there are input pads exactly where the text begins with `[`.
pub proof fn lemma_split_pads_shape(s: Seq<char>)
    requires
        split_pads(s) is Ok,
    ensures
        ({
            let p = split_pads(s)->Ok_0;
            let n = s.len() as int;
            exists|a: int, b: int|
                {
                    &&& 0 <= a <= b <= n
                    &&& #[trigger] s.subrange(a, b) == p.rest
                    &&& if a == 0 {
                        p.inpads.len() == 0
                    } else {
                        s[0] == '[' && s[a - 1] == ']' && p.inpads == pad_names(
                            s.subrange(1, a - 1),
                        )
                    }
                    &&& if b == n {
                        p.outpads.len() == 0
                    } else {
                        s[b] == '[' && s[n - 1] == ']' && p.outpads == pad_names(
                            s.subrange(b + 1, n - 1),
                        )
                    }
                }
        }),
        (split_pads(s)->Ok_0.inpads.len() == 0) <==> !(s.len() > 0 && s[0] == '['),
{
    let p = split_pads(s)->Ok_0;
    let n = s.len() as int;
    lemma_index_of_bound(s, ']');
    let (inpads, r) = split_leading(s)->Ok_0;
    let (outpads, rest) = split_trailing(r)->Ok_0;
    assert(p.inpads == inpads && p.outpads == outpads && p.rest == rest);
    let a: int = if s.len() > 0 && s[0] == '[' {
        index_of(s, ']') as int + 1
    } else {
        0
    };
    assert(r =~= s.subrange(a, n));
    lemma_end_of_last_bound(r, '[');
    let b: int = if r.len() > 0 && r.last() == ']' {
        a + end_of_last(r, '[') as int - 1
    } else {
        n
    };
    if a > 0 {
        lemma_split_pieces(s.subrange(1, a - 1), ':', ':');
        assert(inpads.len() > 0);
    } else {
        assert(inpads.len() == 0);
    }
    if b < n {
        lemma_split_pieces(s.subrange(b + 1, n - 1), ':', ':');
        assert(r.subrange(b - a + 1, r.len() - 1) =~= s.subrange(b + 1, n - 1));
        assert(r.subrange(0, b - a) =~= s.subrange(a, b));
        assert(s[b] == r[b - a]);
        assert(s[n - 1] == r.last());
        assert(outpads == pad_names(s.subrange(b + 1, n - 1)));
    } else {
        assert(r =~= s.subrange(a, b));
        assert(outpads.len() == 0);
    }
    assert(s.subrange(a, b) == p.rest);
}

/// A name with its argument block is taken apart into the two again.
proof fn lemma_body(name: Seq<char>, args: Option<Seq<char>>)
    requires
        wf_name(name),
    ensures
        parse_body(name + render_args(args)) == Ok::<(Seq<char>, Option<Seq<char>>), ParseError>(
            (name, args),
        ),
{
    let b = name + render_args(args);
    let m = name.len() as int;
    lemma_name_has_no_error(name);
    match args {
        Some(a) => {
            assert(b.last() == '}');
            assert(b[0] == name[0]);
            lemma_trim_id(b);
            assert forall|i: int| 0 <= i < m implies b[i] != '{' by {
                assert(b[i] == name[i]);
            }
            assert(b[m] == '{');
            lemma_index_of_at(b, '{', m);
            assert(b.subrange(0, m) =~= name);
            lemma_trim_id(name);
            assert(b.subrange(m + 1, b.len() - 1) =~= a);
        },
        None => {
            assert(b =~= name);
            lemma_trim_id(name);
            lemma_index_of_free(name, '{');
        },
    }
}

/// A well-formed filter invocation is what its filterspec parses to.
pub proof fn lemma_parse_render_node(n: NodeView)
    requires
        wf_node(n),
    ensures
        parse_node(render_node(n)) == Ok::<NodeView, ParseError>(n),
{
    let body = n.name + render_args(n.args);
    let tail = body + render_pads(n.outpads);
    let x = render_pads(n.inpads) + tail;
    assert(render_node(n) =~= x);
    assert(body.len() > 0 && body[0] == n.name[0]);
    assert(body.last() != ']') by {
        if n.args is None {
            assert(body =~= n.name);
        }
    }
    assert(!is_blank(body.last())) by {
        if n.args is None {
            assert(body =~= n.name);
        }
    }
    assert(tail[0] == body[0]);
    assert(x.len() > 0 && !is_blank(x[0]) && !is_blank(x.last())) by {
        if n.inpads.len() == 0 {
            assert(x =~= tail);
        }
        if n.outpads.len() == 0 {
            assert(tail =~= body);
        }
    }
    lemma_trim_id(x);
    lemma_wf_pads_listable(n.inpads);
    lemma_wf_pads_listable(n.outpads);
    lemma_leading(n.inpads, tail);
    lemma_trailing(body, n.outpads);
    lemma_pads_have_no_error(n.inpads);
    lemma_pads_have_no_error(n.outpads);
    lemma_body(n.name, n.args);
}

/// The filterspec of a well-formed invocation holds neither separator.
proof fn lemma_render_node_free(n: NodeView, c: char)
    requires
        wf_node(n),
        c == ';' || c == ',',
    ensures
        free_of(render_node(n), c),
{
    lemma_pads_text_free(n.inpads, c);
    lemma_pads_text_free(n.outpads, c);
    assert(free_of(render_pads(n.inpads), c));
    assert(free_of(render_pads(n.outpads), c));
    assert(free_of(render_args(n.args), c));
}

proof fn lemma_parse_render_nodes(c: Seq<NodeView>)
    requires
        forall|i: int| 0 <= i < c.len() ==> wf_node(#[trigger] c[i]),
    ensures
        parse_nodes(render_nodes(c)) == Ok::<Seq<NodeView>, ParseError>(c),
    decreases c.len(),
{
    if c.len() == 0 {
        assert(c =~= Seq::<NodeView>::empty());
    } else {
        let front = c.drop_last();
        assert forall|i: int| 0 <= i < front.len() implies wf_node(#[trigger] front[i]) by {
            assert(front[i] == c[i]);
        }
        lemma_parse_render_nodes(front);
        assert(render_nodes(c).drop_last() =~= render_nodes(front));
        assert(wf_node(c.last()));
        lemma_parse_render_node(c.last());
        assert(front.push(c.last()) =~= c);
    }
}

/// A well-formed chain is what its text parses to.
pub proof fn lemma_parse_render_chain(c: Seq<NodeView>)
    requires
        wf_chain(c),
    ensures
        parse_chain(render_chain(c)) == Ok::<Seq<NodeView>, ParseError>(c),
        free_of(render_chain(c), ';'),
{
    let texts = render_nodes(c);
    assert forall|i: int| 0 <= i < texts.len() implies free_of(#[trigger] texts[i], ',') by {
        assert(wf_node(c[i]));
        lemma_render_node_free(c[i], ',');
    }
    assert forall|i: int| 0 <= i < texts.len() implies free_of(#[trigger] texts[i], ';') by {
        assert(wf_node(c[i]));
        lemma_render_node_free(c[i], ';');
    }
    lemma_split_join(texts, ',');
    lemma_join_free(texts, ',', ';');
    lemma_parse_render_nodes(c);
}

proof fn lemma_parse_render_chains(g: Seq<Seq<NodeView>>)
    requires
        forall|i: int| 0 <= i < g.len() ==> wf_chain(#[trigger] g[i]),
    ensures
        parse_chains(render_chains(g)) == Ok::<Seq<Seq<NodeView>>, ParseError>(g),
    decreases g.len(),
{
    if g.len() == 0 {
        assert(g =~= Seq::<Seq<NodeView>>::empty());
    } else {
        let front = g.drop_last();
        assert forall|i: int| 0 <= i < front.len() implies wf_chain(#[trigger] front[i]) by {
            assert(front[i] == g[i]);
        }
        lemma_parse_render_chains(front);
        assert(render_chains(g).drop_last() =~= render_chains(front));
        assert(wf_chain(g.last()));
        lemma_parse_render_chain(g.last());
        assert(front.push(g.last()) =~= g);
    }
}

/// A well-formed graph is what its text parses to.
pub proof fn lemma_parse_render(g: Seq<Seq<NodeView>>)
    requires
        wf_graph(g),
    ensures
        parse_graph(render_graph(g)) == Ok::<Seq<Seq<NodeView>>, ParseError>(g),
{
    let texts = render_chains(g);
    assert forall|i: int| 0 <= i < texts.len() implies free_of(#[trigger] texts[i], ';') by {
        assert(wf_chain(g[i]));
        lemma_parse_render_chain(g[i]);
    }
    lemma_split_join(texts, ';');
    lemma_parse_render_chains(g);
}

proof fn lemma_no_error_each(ts: Seq<Seq<char>>)
    requires
        first_pad_error(ts) is None,
    ensures
        forall|i: int| 0 <= i < ts.len() ==> pad_error(#[trigger] ts[i]) is None,
    decreases ts.len(),
{
    if ts.len() > 0 {
        let front = ts.drop_last();
        lemma_no_error_each(front);
        assert forall|i: int| 0 <= i < ts.len() implies pad_error(#[trigger] ts[i]) is None by {
            if i < front.len() {
                assert(ts[i] == front[i]);
            }
        }
    }
}

/// A trimmed text without separators that passes as a name is a name.
proof fn lemma_token_is_name(t: Seq<char>)
    requires
        token_error(t) is None,
        trimmed(t),
        free_of(t, ';'),
        free_of(t, ','),
    ensures
        wf_name(t),
{
    assert forall|k: int| 0 <= k < t.len() implies t[k] != '[' && t[k] != ']' by {
        if t[k] == '[' || t[k] == ']' {
            assert(has_bracket(t));
        }
    }
    assert forall|k: int| 0 <= k < t.len() implies t[k] != '{' && t[k] != '}' by {
        if t[k] == '{' || t[k] == '}' {
            assert(has_brace(t));
        }
    }
}

/// A text without brackets, as a check of names finds it, is free of both.
proof fn lemma_no_bracket(t: Seq<char>)
    requires
        !has_bracket(t),
    ensures
        free_of(t, '['),
        free_of(t, ']'),
{
    assert forall|k: int| 0 <= k < t.len() implies t[k] != '[' && t[k] != ']' by {
        if t[k] == '[' || t[k] == ']' {
            assert(has_bracket(t));
        }
    }
}

/// The names of a pad list that pass as names are pad names.
proof fn lemma_pad_names_wf(inner: Seq<char>)
    requires
        free_of(inner, ';'),
        free_of(inner, ','),
        first_pad_error(pad_names(inner)) is None,
    ensures
        wf_pads(pad_names(inner)),
{
    let pieces = split(inner, ':');
    let pads = pad_names(inner);
    lemma_no_error_each(pads);
    lemma_split_pieces(inner, ':', ';');
    lemma_split_pieces(inner, ':', ',');
    assert forall|i: int| 0 <= i < pads.len() implies wf_pad(#[trigger] pads[i]) by {
        assert(pads[i] == trim(pieces[i]));
        assert(free_of(pieces[i], ':'));
        assert(free_of(pieces[i], ';'));
        assert(free_of(pieces[i], ','));
        lemma_trim_props(pieces[i], ':');
        lemma_trim_props(pieces[i], ';');
        lemma_trim_props(pieces[i], ',');
        lemma_no_bracket(pads[i]);
    }
}

/// What a filterspec without separators parses to is well formed.
pub proof fn lemma_parsed_node_wf(seg: Seq<char>)
    requires
        free_of(seg, ';'),
        free_of(seg, ','),
        parse_node(seg) is Ok,
    ensures
        wf_node(parse_node(seg)->Ok_0),
{
    let t = trim(seg);
    lemma_trim_props(seg, ';');
    lemma_trim_props(seg, ',');
    let p = split_pads(t)->Ok_0;
    let (inpads, r) = split_leading(t)->Ok_0;
    let (outpads, rest) = split_trailing(r)->Ok_0;
    assert(p.inpads == inpads && p.outpads == outpads && p.rest == rest);
    assert(free_of(r, ';') && free_of(r, ','));
    assert(wf_pads(inpads)) by {
        if t.len() > 0 && t[0] == '[' {
            lemma_index_of_bound(t, ']');
            lemma_pad_names_wf(t.subrange(1, index_of(t, ']') as int));
        }
    }
    lemma_end_of_last_bound(r, '[');
    assert(free_of(rest, ';') && free_of(rest, ','));
    assert(wf_pads(outpads)) by {
        if r.len() > 0 && r.last() == ']' {
            lemma_pad_names_wf(r.subrange(end_of_last(r, '[') as int, r.len() - 1));
        }
    }
    let b = trim(rest);
    lemma_trim_props(rest, ';');
    lemma_trim_props(rest, ',');
    let i = index_of(b, '{');
    lemma_index_of_bound(b, '{');
    let (name, args) = parse_body(rest)->Ok_0;
    if i < b.len() {
        let raw = b.subrange(0, i as int);
        assert(free_of(raw, ';') && free_of(raw, ','));
        lemma_trim_props(raw, ';');
        lemma_trim_props(raw, ',');
        lemma_token_is_name(name);
        assert(wf_args(args));
    } else {
        lemma_token_is_name(name);
    }
}

proof fn lemma_parsed_nodes_wf(segs: Seq<Seq<char>>)
    requires
        forall|i: int| 0 <= i < segs.len() ==> free_of(#[trigger] segs[i], ';') && free_of(segs[i], ','),
        parse_nodes(segs) is Ok,
    ensures
        parse_nodes(segs)->Ok_0.len() == segs.len(),
        forall|i: int| 0 <= i < segs.len() ==> wf_node(#[trigger] parse_nodes(segs)->Ok_0[i]),
    decreases segs.len(),
{
    if segs.len() > 0 {
        let front = segs.drop_last();
        assert forall|i: int| 0 <= i < front.len() implies free_of(#[trigger] front[i], ';')
            && free_of(front[i], ',') by {
            assert(front[i] == segs[i]);
        }
        lemma_parsed_nodes_wf(front);
        assert(free_of(segs.last(), ';') && free_of(segs.last(), ','));
        lemma_parsed_node_wf(segs.last());
    }
}

/// What a text without `;` parses to as a chain is well formed.
pub proof fn lemma_parsed_chain_wf(seg: Seq<char>)
    requires
        free_of(seg, ';'),
        parse_chain(seg) is Ok,
    ensures
        wf_chain(parse_chain(seg)->Ok_0),
{
    lemma_split_pieces(seg, ',', ';');
    lemma_parsed_nodes_wf(split(seg, ','));
}

proof fn lemma_parsed_chains_wf(segs: Seq<Seq<char>>)
    requires
        forall|i: int| 0 <= i < segs.len() ==> free_of(#[trigger] segs[i], ';'),
        parse_chains(segs) is Ok,
    ensures
        parse_chains(segs)->Ok_0.len() == segs.len(),
        forall|i: int| 0 <= i < segs.len() ==> wf_chain(#[trigger] parse_chains(segs)->Ok_0[i]),
    decreases segs.len(),
{
    if segs.len() > 0 {
        let front = segs.drop_last();
        assert forall|i: int| 0 <= i < front.len() implies free_of(#[trigger] front[i], ';') by {
            assert(front[i] == segs[i]);
        }
        lemma_parsed_chains_wf(front);
        assert(free_of(segs.last(), ';'));
        lemma_parsed_chain_wf(segs.last());
    }
}

/// Every graph that the parser accepts is well formed.
pub proof fn lemma_parsed_graph_wf(s: Seq<char>)
    requires
        parse_graph(s) is Ok,
    ensures
        wf_graph(parse_graph(s)->Ok_0),
{
    lemma_split_pieces(s, ';', ';');
    lemma_parsed_chains_wf(split(s, ';'));
}

/// Parsing, writing the graph out and parsing again gives the same graph:
/// for every text `s` that the parser accepts, the text of the parsed graph
/// is accepted too, and denotes the same chains, invocations, argument texts
/// and pads.
pub proof fn lemma_roundtrip(s: Seq<char>)
    requires
        parse_graph(s) is Ok,
    ensures
        parse_graph(render_graph(parse_graph(s)->Ok_0)) == parse_graph(s),
{
    lemma_parsed_graph_wf(s);
    lemma_parse_render(parse_graph(s)->Ok_0);
}

} // verus!
