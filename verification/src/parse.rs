//! The filtergraph language: its grammar as functions on `Seq<char>`, and the
//! parser that computes them.
//!
//! ```text
//! graph      = chain (';' chain)* ;
//! chain      = filterspec (',' filterspec)* ;
//! filterspec = pads? filtername args? pads? ;
//! pads       = '[' name (':' name)* ']' ;
//! args       = '{' rawtext '}' ;
//! ```
//!
//! Blanks around a filterspec, a filter name and a pad name are dropped; the
//! text of an argument block is kept as it stands. `;` and `,` separate
//! wherever they occur, in an argument block too. A filter name holds no
//! bracket and no brace; a pad name holds no bracket.
use vstd::prelude::*;
use vstd::string::StrSliceExecFns;
use crate::graph::{chain_views, node_views, Chain, FilterGraph, FilterInvocation, NodeView};
use crate::text::{
    end_of_last, find_first, find_last_end, index_of, lemma_end_of_last_bound,
    lemma_index_of_bound, split, split_str, to_chars, trim, trim_str, views,
};

verus! {

/// Why a text is no filtergraph.
#[derive(Debug, Clone, Copy, PartialEq, Eq, Structural)]
pub enum ParseError {
    /// A `[` without its `]`, or the reverse.
    UnbalancedPad,
    /// A missing filter or pad name, or a brace out of place.
    UnknownSyntax,
    /// Nothing between two separators, or nothing at all.
    EmptyChain,
}

/// What `parse_pads` finds: the pads in front, the pads behind, and the text
/// between them.
pub struct PadSplit {
    pub inpads: Seq<Seq<char>>,
    pub outpads: Seq<Seq<char>>,
    pub rest: Seq<char>,
}

/// Whether `t` holds `[` or `]`.
pub open spec fn has_bracket(t: Seq<char>) -> bool {
    exists|k: int| 0 <= k < t.len() && (#[trigger] t[k] == '[' || t[k] == ']')
}

/// Whether `t` holds `{` or `}`.
pub open spec fn has_brace(t: Seq<char>) -> bool {
    exists|k: int| 0 <= k < t.len() && (#[trigger] t[k] == '{' || t[k] == '}')
}

/// What is wrong with `t` as a filter name, if anything: a filter name is
/// not empty and holds no bracket and no brace.
pub open spec fn token_error(t: Seq<char>) -> Option<ParseError> {
    if has_bracket(t) {
        Some(ParseError::UnbalancedPad)
    } else if t.len() == 0 || has_brace(t) {
        Some(ParseError::UnknownSyntax)
    } else {
        None
    }
}

/// What is wrong with `t` as a pad name, if anything: a pad name is not
/// empty and holds no bracket.
pub open spec fn pad_error(t: Seq<char>) -> Option<ParseError> {
    if has_bracket(t) {
        Some(ParseError::UnbalancedPad)
    } else if t.len() == 0 {
        Some(ParseError::UnknownSyntax)
    } else {
        None
    }
}

/// The error of the first pad name in `ts` that has one.
pub open spec fn first_pad_error(ts: Seq<Seq<char>>) -> Option<ParseError>
    decreases ts.len(),
{
    if ts.len() == 0 {
        None
    } else {
        match first_pad_error(ts.drop_last()) {
            Some(e) => Some(e),
            None => pad_error(ts.last()),
        }
    }
}

/// The names in the text between `[` and `]`.
pub open spec fn pad_names(inner: Seq<char>) -> Seq<Seq<char>> {
    let pieces = split(inner, ':');
    Seq::new(pieces.len(), |i: int| trim(pieces[i]))
}

/// The pads in front of `t`, and what follows them.
pub open spec fn split_leading(t: Seq<char>) -> Result<(Seq<Seq<char>>, Seq<char>), ParseError> {
    if t.len() > 0 && t[0] == '[' {
        let k = index_of(t, ']');
        if k >= t.len() {
            Err(ParseError::UnbalancedPad)
        } else {
            Ok((pad_names(t.subrange(1, k as int)), t.subrange(k as int + 1, t.len() as int)))
        }
    } else {
        Ok((Seq::empty(), t))
    }
}

/// The pads at the end of `r`, and what precedes them.
pub open spec fn split_trailing(r: Seq<char>) -> Result<(Seq<Seq<char>>, Seq<char>), ParseError> {
    if r.len() > 0 && r.last() == ']' {
        let j = end_of_last(r, '[');
        if j == 0 {
            Err(ParseError::UnbalancedPad)
        } else {
            Ok((pad_names(r.subrange(j as int, r.len() - 1)), r.subrange(0, j - 1)))
        }
    } else {
        Ok((Seq::empty(), r))
    }
}

/// A text taken apart at its pads: the pads in brackets at its start, the
/// pads in brackets at its end, and the text between them as it stands.
pub open spec fn split_pads(s: Seq<char>) -> Result<PadSplit, ParseError> {
    match split_leading(s) {
        Err(e) => Err(e),
        Ok((inpads, r)) => match split_trailing(r) {
            Err(e) => Err(e),
            Ok((outpads, rest)) => match first_pad_error(inpads) {
                Some(e) => Err(e),
                None => match first_pad_error(outpads) {
                    Some(e) => Err(e),
                    None => Ok(PadSplit { inpads, outpads, rest }),
                },
            },
        },
    }
}

/// Filter name and argument text of what stands between the pads.
pub open spec fn parse_body(rest: Seq<char>) -> Result<(Seq<char>, Option<Seq<char>>), ParseError> {
    let b = trim(rest);
    let i = index_of(b, '{');
    if i < b.len() {
        if b.last() != '}' {
            Err(ParseError::UnknownSyntax)
        } else {
            let name = trim(b.subrange(0, i as int));
            match token_error(name) {
                Some(e) => Err(e),
                None => Ok((name, Some(b.subrange(i as int + 1, b.len() - 1)))),
            }
        }
    } else {
        match token_error(b) {
            Some(e) => Err(e),
            None => Ok((b, None)),
        }
    }
}

/// The filter invocation that a filterspec denotes.
pub open spec fn parse_node(seg: Seq<char>) -> Result<NodeView, ParseError> {
    if trim(seg).len() == 0 {
        Err(ParseError::EmptyChain)
    } else {
        match split_pads(trim(seg)) {
            Err(e) => Err(e),
            Ok(p) => match parse_body(p.rest) {
                Err(e) => Err(e),
                Ok((name, args)) => Ok(
                    NodeView { name, args, inpads: p.inpads, outpads: p.outpads },
                ),
            },
        }
    }
}

/// The invocations of a chain's filterspecs; the first error wins.
pub open spec fn parse_nodes(segs: Seq<Seq<char>>) -> Result<Seq<NodeView>, ParseError>
    decreases segs.len(),
{
    if segs.len() == 0 {
        Ok(Seq::empty())
    } else {
        match parse_nodes(segs.drop_last()) {
            Err(e) => Err(e),
            Ok(nodes) => match parse_node(segs.last()) {
                Err(e) => Err(e),
                Ok(n) => Ok(nodes.push(n)),
            },
        }
    }
}

/// The chain that a text between `;` denotes.
pub open spec fn parse_chain(seg: Seq<char>) -> Result<Seq<NodeView>, ParseError> {
    parse_nodes(split(seg, ','))
}

/// The chains of a graph's segments; the first error wins.
pub open spec fn parse_chains(segs: Seq<Seq<char>>) -> Result<Seq<Seq<NodeView>>, ParseError>
    decreases segs.len(),
{
    if segs.len() == 0 {
        Ok(Seq::empty())
    } else {
        match parse_chains(segs.drop_last()) {
            Err(e) => Err(e),
            Ok(chains) => match parse_chain(segs.last()) {
                Err(e) => Err(e),
                Ok(c) => Ok(chains.push(c)),
            },
        }
    }
}

/// The filtergraph that a text denotes, or why it denotes none.
pub open spec fn parse_graph(s: Seq<char>) -> Result<Seq<Seq<NodeView>>, ParseError> {
    parse_chains(split(s, ';'))
}

/// What is wrong with `t` as a filter name, if anything.
pub fn check_token(t: &str) -> (r: Option<ParseError>)
    ensures
        r == token_error(t@),
{
    let chars = to_chars(t);
    let mut bracket = false;
    let mut brace = false;
    let mut i: usize = 0;
    while i < chars.len()
        invariant
            i <= chars.len(),
            bracket == has_bracket(chars@.subrange(0, i as int)),
            brace == has_brace(chars@.subrange(0, i as int)),
        decreases chars.len() - i,
    {
        let c = chars[i];
        proof {
            let before = chars@.subrange(0, i as int);
            let after = chars@.subrange(0, i + 1);
            assert(after.drop_last() =~= before);
            if has_bracket(before) {
                let k = choose|k: int|
                    0 <= k < before.len() && (#[trigger] before[k] == '[' || before[k] == ']');
                assert(after[k] == before[k]);
            }
            if has_brace(before) {
                let k = choose|k: int|
                    0 <= k < before.len() && (#[trigger] before[k] == '{' || before[k] == '}');
                assert(after[k] == before[k]);
            }
            if has_bracket(after) && !(c == '[' || c == ']') {
                let k = choose|k: int|
                    0 <= k < after.len() && (#[trigger] after[k] == '[' || after[k] == ']');
                assert(before[k] == after[k]);
            }
            if has_brace(after) && !(c == '{' || c == '}') {
                let k = choose|k: int|
                    0 <= k < after.len() && (#[trigger] after[k] == '{' || after[k] == '}');
                assert(before[k] == after[k]);
            }
            assert(after[i as int] == c);
        }
        if c == '[' || c == ']' {
            bracket = true;
        }
        if c == '{' || c == '}' {
            brace = true;
        }
        i = i + 1;
    }
    proof {
        assert(chars@.subrange(0, chars.len() as int) =~= t@);
    }
    if bracket {
        Some(ParseError::UnbalancedPad)
    } else if chars.len() == 0 || brace {
        Some(ParseError::UnknownSyntax)
    } else {
        None
    }
}

/// What is wrong with `t` as a pad name, if anything.
pub fn check_pad(t: &str) -> (r: Option<ParseError>)
    ensures
        r == pad_error(t@),
{
    let chars = to_chars(t);
    let mut i: usize = 0;
    while i < chars.len()
        invariant
            i <= chars.len(),
            chars@ == t@,
            forall|k: int| 0 <= k < i ==> chars@[k] != '[' && chars@[k] != ']',
        decreases chars.len() - i,
    {
        let c = chars[i];
        if c == '[' || c == ']' {
            proof {
                assert(t@[i as int] == '[' || t@[i as int] == ']');
            }
            return Some(ParseError::UnbalancedPad);
        }
        i = i + 1;
    }
    if chars.len() == 0 {
        Some(ParseError::UnknownSyntax)
    } else {
        None
    }
}

/// The error of the first pad name among `ts` that has one.
pub fn check_pads(ts: &Vec<&str>) -> (r: Option<ParseError>)
    ensures
        r == first_pad_error(views(ts@)),
{
    let mut i: usize = 0;
    while i < ts.len()
        invariant
            i <= ts.len(),
            first_pad_error(views(ts@).subrange(0, i as int)) is None,
        decreases ts.len() - i,
    {
        proof {
            assert(views(ts@).subrange(0, i + 1).drop_last() =~= views(ts@).subrange(
                0,
                i as int,
            ));
        }
        let e = check_pad(ts[i]);
        if e.is_some() {
            proof {
                lemma_first_error_stays(views(ts@), i + 1);
            }
            return e;
        }
        i = i + 1;
    }
    proof {
        assert(views(ts@).subrange(0, ts.len() as int) =~= views(ts@));
    }
    None
}

/// An error among the first `n` pad names is the error of all of them.
pub proof fn lemma_first_error_stays(ts: Seq<Seq<char>>, n: int)
    requires
        0 <= n <= ts.len(),
        first_pad_error(ts.subrange(0, n)) is Some,
    ensures
        first_pad_error(ts) == first_pad_error(ts.subrange(0, n)),
    decreases ts.len(),
{
    if n < ts.len() {
        assert(ts.drop_last().subrange(0, n) =~= ts.subrange(0, n));
        lemma_first_error_stays(ts.drop_last(), n);
    } else {
        assert(ts.subrange(0, n) =~= ts);
    }
}

/// The names in the text between `[` and `]`, as slices of it.
pub fn pad_list<'a>(inner: &'a str) -> (pads: Vec<&'a str>)
    ensures
        views(pads@) == pad_names(inner@),
{
    let pieces = split_str(inner, ':');
    let mut pads: Vec<&'a str> = Vec::new();
    let mut i: usize = 0;
    while i < pieces.len()
        invariant
            i <= pieces.len(),
            pads.len() == i,
            views(pieces@) == split(inner@, ':'),
            forall|k: int| 0 <= k < i ==> pads@[k]@ == trim(#[trigger] pieces@[k]@),
        decreases pieces.len() - i,
    {
        let p = trim_str(pieces[i]);
        pads.push(p);
        i = i + 1;
    }
    proof {
        let want = pad_names(inner@);
        assert(views(pieces@).len() == pieces.len());
        assert forall|k: int| 0 <= k < pads.len() implies views(pads@)[k] == want[k] by {
            assert(views(pieces@)[k] == pieces@[k]@);
        }
        assert(views(pads@) =~= want);
    }
    pads
}

/// The pads in front of `t`, and what follows them.
fn take_leading<'a>(t: &'a str) -> (r: Result<(Vec<&'a str>, &'a str), ParseError>)
    ensures
        match r {
            Ok(p) => split_leading(t@) == Ok::<(Seq<Seq<char>>, Seq<char>), ParseError>(
                (views(p.0@), p.1@),
            ),
            Err(e) => split_leading(t@) == Err::<(Seq<Seq<char>>, Seq<char>), ParseError>(e),
        },
{
    let chars = to_chars(t);
    let n = chars.len();
    if n > 0 && chars[0] == '[' {
        let k = find_first(&chars, ']');
        if k >= n {
            return Err(ParseError::UnbalancedPad);
        }
        proof {
            lemma_index_of_bound(t@, ']');
        }
        let pads = pad_list(t.substring_char(1, k));
        Ok((pads, t.substring_char(k + 1, n)))
    } else {
        let pads: Vec<&'a str> = Vec::new();
        proof {
            assert(views(pads@) =~= Seq::<Seq<char>>::empty());
        }
        Ok((pads, t))
    }
}

/// The pads at the end of `r`, and what precedes them.
fn take_trailing<'a>(r: &'a str) -> (res: Result<(Vec<&'a str>, &'a str), ParseError>)
    ensures
        match res {
            Ok(p) => split_trailing(r@) == Ok::<(Seq<Seq<char>>, Seq<char>), ParseError>(
                (views(p.0@), p.1@),
            ),
            Err(e) => split_trailing(r@) == Err::<(Seq<Seq<char>>, Seq<char>), ParseError>(e),
        },
{
    let chars = to_chars(r);
    let n = chars.len();
    if n > 0 && chars[n - 1] == ']' {
        let j = find_last_end(&chars, '[');
        if j == 0 {
            return Err(ParseError::UnbalancedPad);
        }
        proof {
            lemma_end_of_last_bound(r@, '[');
        }
        let pads = pad_list(r.substring_char(j, n - 1));
        Ok((pads, r.substring_char(0, j - 1)))
    } else {
        let pads: Vec<&'a str> = Vec::new();
        proof {
            assert(views(pads@) =~= Seq::<Seq<char>>::empty());
        }
        Ok((pads, r))
    }
}

/// Takes a text apart at its pads. Where the text begins with `[`, the
/// names up to the first `]` are its input pads; where what is left ends
/// with `]`, the names behind the last `[` are its output pads. The text
/// between them is returned as it stands. Pad names have `:` between them,
/// and blanks around a pad name are dropped.
///
/// Fails with `UnbalancedPad` where a `[` in front has no `]`, a `]` at the
/// end has no `[`, or a pad name holds a bracket; with `UnknownSyntax` where
/// a pad name is empty.
pub fn parse_pads<'a>(s: &'a str) -> (r: Result<(Vec<&'a str>, Vec<&'a str>, &'a str), ParseError>)
    ensures
        match r {
            Ok(p) => split_pads(s@) == Ok::<PadSplit, ParseError>(
                PadSplit { inpads: views(p.0@), outpads: views(p.1@), rest: p.2@ },
            ),
            Err(e) => split_pads(s@) == Err::<PadSplit, ParseError>(e),
        },
{
    let (inpads, r) = match take_leading(s) {
        Ok(p) => p,
        Err(e) => {
            return Err(e);
        },
    };
    let (outpads, rest) = match take_trailing(r) {
        Ok(p) => p,
        Err(e) => {
            return Err(e);
        },
    };
    match check_pads(&inpads) {
        Some(e) => {
            return Err(e);
        },
        None => {},
    }
    match check_pads(&outpads) {
        Some(e) => {
            return Err(e);
        },
        None => {},
    }
    Ok((inpads, outpads, rest))
}

/// Filter name and argument text of what stands between the pads.
pub fn parse_name_args<'a>(rest: &'a str) -> (r: Result<(&'a str, Option<&'a str>), ParseError>)
    ensures
        match r {
            Ok(p) => parse_body(rest@) == Ok::<(Seq<char>, Option<Seq<char>>), ParseError>(
                (
                    p.0@,
                    match p.1 {
                        Some(a) => Some(a@),
                        None => None,
                    },
                ),
            ),
            Err(e) => parse_body(rest@) == Err::<(Seq<char>, Option<Seq<char>>), ParseError>(e),
        },
{
    let b = trim_str(rest);
    let chars = to_chars(b);
    let n = chars.len();
    let i = find_first(&chars, '{');
    if i < n {
        if chars[n - 1] != '}' {
            return Err(ParseError::UnknownSyntax);
        }
        proof {
            lemma_index_of_bound(b@, '{');
        }
        let name = trim_str(b.substring_char(0, i));
        match check_token(name) {
            Some(e) => Err(e),
            None => Ok((name, Some(b.substring_char(i + 1, n - 1)))),
        }
    } else {
        match check_token(b) {
            Some(e) => Err(e),
            None => Ok((b, None)),
        }
    }
}

/// The filter invocation that the filterspec `seg` denotes.
pub fn parse_filter<'a>(seg: &'a str) -> (r: Result<FilterInvocation<'a>, ParseError>)
    ensures
        match r {
            Ok(n) => parse_node(seg@) == Ok::<NodeView, ParseError>(n@),
            Err(e) => parse_node(seg@) == Err::<NodeView, ParseError>(e),
        },
{
    let t = trim_str(seg);
    if t.unicode_len() == 0 {
        return Err(ParseError::EmptyChain);
    }
    let (inpads, outpads, rest) = match parse_pads(t) {
        Ok(p) => p,
        Err(e) => {
            return Err(e);
        },
    };
    match parse_name_args(rest) {
        Err(e) => Err(e),
        Ok((name, args)) => Ok(FilterInvocation { name, args, inpads, outpads }),
    }
}

/// The chain that the text `seg` denotes.
pub fn parse_chain_str<'a>(seg: &'a str) -> (r: Result<Chain<'a>, ParseError>)
    ensures
        match r {
            Ok(c) => parse_chain(seg@) == Ok::<Seq<NodeView>, ParseError>(c@),
            Err(e) => parse_chain(seg@) == Err::<Seq<NodeView>, ParseError>(e),
        },
{
    let segs = split_str(seg, ',');
    let mut nodes: Vec<FilterInvocation<'a>> = Vec::new();
    let mut i: usize = 0;
    proof {
        assert(views(segs@).subrange(0, 0) =~= Seq::<Seq<char>>::empty());
        assert(node_views(nodes@) =~= Seq::<NodeView>::empty());
    }
    while i < segs.len()
        invariant
            i <= segs.len(),
            views(segs@) == split(seg@, ','),
            parse_nodes(views(segs@).subrange(0, i as int)) == Ok::<Seq<NodeView>, ParseError>(
                node_views(nodes@),
            ),
        decreases segs.len() - i,
    {
        proof {
            assert(views(segs@).subrange(0, i + 1).drop_last() =~= views(segs@).subrange(
                0,
                i as int,
            ));
        }
        match parse_filter(segs[i]) {
            Err(e) => {
                proof {
                    lemma_nodes_error_stays(views(segs@), i + 1);
                }
                return Err(e);
            },
            Ok(n) => {
                proof {
                    assert(node_views(nodes@).push(n@) =~= node_views(nodes@.push(n)));
                }
                nodes.push(n);
            },
        }
        i = i + 1;
    }
    proof {
        assert(views(segs@).subrange(0, segs.len() as int) =~= views(segs@));
    }
    Ok(Chain { nodes })
}

/// An error among the first `n` filterspecs is the error of the chain.
pub proof fn lemma_nodes_error_stays(segs: Seq<Seq<char>>, n: int)
    requires
        0 <= n <= segs.len(),
        parse_nodes(segs.subrange(0, n)) is Err,
    ensures
        parse_nodes(segs) == parse_nodes(segs.subrange(0, n)),
    decreases segs.len(),
{
    if n < segs.len() {
        assert(segs.drop_last().subrange(0, n) =~= segs.subrange(0, n));
        lemma_nodes_error_stays(segs.drop_last(), n);
    } else {
        assert(segs.subrange(0, n) =~= segs);
    }
}

/// An error among the first `n` chains is the error of the graph.
pub proof fn lemma_chains_error_stays(segs: Seq<Seq<char>>, n: int)
    requires
        0 <= n <= segs.len(),
        parse_chains(segs.subrange(0, n)) is Err,
    ensures
        parse_chains(segs) == parse_chains(segs.subrange(0, n)),
    decreases segs.len(),
{
    if n < segs.len() {
        assert(segs.drop_last().subrange(0, n) =~= segs.subrange(0, n));
        lemma_chains_error_stays(segs.drop_last(), n);
    } else {
        assert(segs.subrange(0, n) =~= segs);
    }
}

/// Parses a filtergraph.
///
/// `"[in]scale{w=640:h=480}[mid],sharpen;[mid]overlay[out]"` is two chains:
/// `scale`, with the argument text `w=640:h=480`, fed from pad `in` and
/// feeding pad `mid`, followed by `sharpen`; and `overlay` between the pads
/// `mid` and `out`.
///
/// Fails with `EmptyChain` on an empty filterspec, with `UnbalancedPad` on a
/// bracket without its partner, with `UnknownSyntax` on a missing name or a
/// brace out of place; of several faults the leftmost filterspec's is
/// reported. Nothing is resolved or run.
pub fn parse_filtergraph<'a>(s: &'a str) -> (r: Result<FilterGraph<'a>, ParseError>)
    ensures
        match r {
            Ok(g) => parse_graph(s@) == Ok::<Seq<Seq<NodeView>>, ParseError>(g@),
            Err(e) => parse_graph(s@) == Err::<Seq<Seq<NodeView>>, ParseError>(e),
        },
{
    let segs = split_str(s, ';');
    let mut chains: Vec<Chain<'a>> = Vec::new();
    let mut i: usize = 0;
    proof {
        assert(views(segs@).subrange(0, 0) =~= Seq::<Seq<char>>::empty());
        assert(chain_views(chains@) =~= Seq::<Seq<NodeView>>::empty());
    }
    while i < segs.len()
        invariant
            i <= segs.len(),
            views(segs@) == split(s@, ';'),
            parse_chains(views(segs@).subrange(0, i as int)) == Ok::<
                Seq<Seq<NodeView>>,
                ParseError,
            >(chain_views(chains@)),
        decreases segs.len() - i,
    {
        proof {
            assert(views(segs@).subrange(0, i + 1).drop_last() =~= views(segs@).subrange(
                0,
                i as int,
            ));
        }
        match parse_chain_str(segs[i]) {
            Err(e) => {
                proof {
                    lemma_chains_error_stays(views(segs@), i + 1);
                }
                return Err(e);
            },
            Ok(c) => {
                proof {
                    assert(chain_views(chains@).push(c@) =~= chain_views(chains@.push(c)));
                }
                chains.push(c);
            },
        }
        i = i + 1;
    }
    proof {
        assert(views(segs@).subrange(0, segs.len() as int) =~= views(segs@));
    }
    Ok(FilterGraph::new(chains))
}

} // verus!
