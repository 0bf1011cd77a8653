use apio::parse::{check_pad, check_pads, check_token, parse_filter, parse_name_args};
use apio::text::{blank, same_text, split_str, trim_str};
use apio::{parse_filtergraph, parse_pads, Chain, FilterGraph, FilterInvocation, ParseError};

fn node<'a>(
    name: &'a str,
    args: Option<&'a str>,
    inpads: &[&'a str],
    outpads: &[&'a str],
) -> FilterInvocation<'a> {
    FilterInvocation { name, args, inpads: inpads.to_vec(), outpads: outpads.to_vec() }
}

#[test]
fn parses_two_chains_with_pads_and_args() {
    let g = parse_filtergraph("[in]filterA{x=1}[mid],filterB;[mid]filterC[out]").unwrap();
    let chains = g.chains();
    assert_eq!(chains.len(), 2);
    assert_eq!(
        chains[0].nodes,
        vec![node("filterA", Some("x=1"), &["in"], &["mid"]), node("filterB", None, &[], &[])]
    );
    assert_eq!(chains[1].nodes, vec![node("filterC", None, &["mid"], &["out"])]);
}

#[test]
fn parses_scale_sharpen_overlay() {
    let g = parse_filtergraph("[in]scale{w=640:h=480}[mid],sharpen;[mid]overlay[out]").unwrap();
    let expected = FilterGraph::new(vec![
        Chain {
            nodes: vec![
                node("scale", Some("w=640:h=480"), &["in"], &["mid"]),
                node("sharpen", None, &[], &[]),
            ],
        },
        Chain { nodes: vec![node("overlay", None, &["mid"], &["out"])] },
    ]);
    assert_eq!(g, expected);
}

#[test]
fn parses_single_filter() {
    let g = parse_filtergraph("blur").unwrap();
    assert_eq!(g.into_chains(), vec![Chain { nodes: vec![node("blur", None, &[], &[])] }]);
}

#[test]
fn pad_lists_split_at_colons() {
    let g = parse_filtergraph("[a:b:c]mix[x:y]").unwrap();
    assert_eq!(g.chains()[0].nodes, vec![node("mix", None, &["a", "b", "c"], &["x", "y"])]);
}

#[test]
fn blanks_around_names_are_dropped_and_args_kept() {
    let g = parse_filtergraph("  [ in : in2 ] scale { w=1 } [ out ] ,\tcrop\n; fade ").unwrap();
    let chains = g.chains();
    assert_eq!(chains.len(), 2);
    assert_eq!(
        chains[0].nodes,
        vec![node("scale", Some(" w=1 "), &["in", "in2"], &["out"]), node("crop", None, &[], &[])]
    );
    assert_eq!(chains[1].nodes, vec![node("fade", None, &[], &[])]);
}

#[test]
fn argument_text_is_opaque() {
    let g = parse_filtergraph("[in]f{a=[1]:b={2}}[out]").unwrap();
    assert_eq!(g.chains()[0].nodes, vec![node("f", Some("a=[1]:b={2}"), &["in"], &["out"])]);
    let g = parse_filtergraph("f{}").unwrap();
    assert_eq!(g.chains()[0].nodes, vec![node("f", Some(""), &[], &[])]);
}

#[test]
fn empty_segments_are_empty_chains() {
    assert_eq!(parse_filtergraph("").unwrap_err(), ParseError::EmptyChain);
    assert_eq!(parse_filtergraph("   ").unwrap_err(), ParseError::EmptyChain);
    assert_eq!(parse_filtergraph("a;;b").unwrap_err(), ParseError::EmptyChain);
    assert_eq!(parse_filtergraph("a;").unwrap_err(), ParseError::EmptyChain);
    assert_eq!(parse_filtergraph("a,,b").unwrap_err(), ParseError::EmptyChain);
    assert_eq!(parse_filtergraph(",a").unwrap_err(), ParseError::EmptyChain);
}

#[test]
fn lonely_brackets_are_unbalanced_pads() {
    assert_eq!(parse_filtergraph("[in filter").unwrap_err(), ParseError::UnbalancedPad);
    assert_eq!(parse_filtergraph("filter out]").unwrap_err(), ParseError::UnbalancedPad);
    assert_eq!(parse_filtergraph("fil[t]er").unwrap_err(), ParseError::UnbalancedPad);
    assert_eq!(parse_filtergraph("[a[b]f").unwrap_err(), ParseError::UnbalancedPad);
    assert_eq!(parse_filtergraph("f[a]b]").unwrap_err(), ParseError::UnbalancedPad);
}

#[test]
fn missing_names_and_stray_braces_are_unknown_syntax() {
    assert_eq!(parse_filtergraph("[in][out]").unwrap_err(), ParseError::UnknownSyntax);
    assert_eq!(parse_filtergraph("{x=1}").unwrap_err(), ParseError::UnknownSyntax);
    assert_eq!(parse_filtergraph("f{x=1").unwrap_err(), ParseError::UnknownSyntax);
    assert_eq!(parse_filtergraph("f{x}y").unwrap_err(), ParseError::UnknownSyntax);
    assert_eq!(parse_filtergraph("f}").unwrap_err(), ParseError::UnknownSyntax);
    assert_eq!(parse_filtergraph("[]f").unwrap_err(), ParseError::UnknownSyntax);
    assert_eq!(parse_filtergraph("[a:]f").unwrap_err(), ParseError::UnknownSyntax);
    assert_eq!(parse_filtergraph("a{b]").unwrap_err(), ParseError::UnbalancedPad);
}

#[test]
fn a_pad_name_may_hold_braces() {
    let g = parse_filtergraph("[a{]f[b}:{c}]").unwrap();
    assert_eq!(g.chains()[0].nodes, vec![node("f", None, &["a{"], &["b}", "{c}"])]);
    assert_eq!(g.render(), "[a{]f[b}:{c}]");
    let g = parse_filtergraph("[{x}]f{y}[{z}]").unwrap();
    assert_eq!(g.chains()[0].nodes, vec![node("f", Some("y"), &["{x}"], &["{z}"])]);
}

#[test]
fn separators_split_inside_argument_blocks_too() {
    assert_eq!(parse_filtergraph("f{a,b}").unwrap_err(), ParseError::UnknownSyntax);
    assert_eq!(parse_filtergraph("f{a;b}").unwrap_err(), ParseError::UnknownSyntax);
}

#[test]
fn the_leftmost_fault_is_reported() {
    assert_eq!(parse_filtergraph("[a f;;b").unwrap_err(), ParseError::UnbalancedPad);
    assert_eq!(parse_filtergraph("a,;[b").unwrap_err(), ParseError::EmptyChain);
    assert_eq!(parse_filtergraph("ok;{};x]").unwrap_err(), ParseError::UnknownSyntax);
}

#[test]
fn parse_pads_takes_a_filterspec_apart() {
    assert_eq!(parse_pads("[a:b]f{x}[c]"), Ok((vec!["a", "b"], vec!["c"], "f{x}")));
    assert_eq!(parse_pads("f"), Ok((vec![], vec![], "f")));
    assert_eq!(parse_pads("[in] name  "), Ok((vec!["in"], vec![], " name  ")));
    assert_eq!(parse_pads("[ in\t: x ]name[ o ]"), Ok((vec!["in", "x"], vec!["o"], "name")));
    assert_eq!(parse_pads("name[o1 : o2]"), Ok((vec![], vec!["o1", "o2"], "name")));
    assert_eq!(parse_pads("[in]"), Ok((vec!["in"], vec![], "")));
    assert_eq!(parse_pads(""), Ok((vec![], vec![], "")));
}

#[test]
fn parse_pads_reports_bad_pads() {
    assert_eq!(parse_pads("[a"), Err(ParseError::UnbalancedPad));
    assert_eq!(parse_pads("a]"), Err(ParseError::UnbalancedPad));
    assert_eq!(parse_pads("[a]f[b]c]"), Err(ParseError::UnbalancedPad));
    assert_eq!(parse_pads("[]f"), Err(ParseError::UnknownSyntax));
    assert_eq!(parse_pads("f[a::b]"), Err(ParseError::UnknownSyntax));
    assert_eq!(parse_pads("f[ ]"), Err(ParseError::UnknownSyntax));
}

#[test]
fn parse_pads_takes_the_text_as_it_stands() {
    assert_eq!(parse_pads(" f"), Ok((vec![], vec![], " f")));
    assert_eq!(parse_pads(" f "), Ok((vec![], vec![], " f ")));
    assert_eq!(parse_pads(" [a]f"), Ok((vec![], vec![], " [a]f")));
    assert_eq!(parse_pads("f[b] "), Ok((vec![], vec![], "f[b] ")));
    assert_eq!(parse_pads(" [a]f[b]"), Ok((vec![], vec!["b"], " [a]f")));
    assert_eq!(parse_pads("[a]f[b] "), Ok((vec!["a"], vec![], "f[b] ")));
    assert_eq!(parse_pads("[a] f{ x } [b]"), Ok((vec!["a"], vec!["b"], " f{ x } ")));
    assert_eq!(parse_pads("plain text"), Ok((vec![], vec![], "plain text")));
}

#[test]
fn parse_pads_accepts_braces_in_pad_names() {
    assert_eq!(parse_pads("[a{]f[b]"), Ok((vec!["a{"], vec!["b"], "f")));
    assert_eq!(parse_pads("f[a}]"), Ok((vec![], vec!["a}"], "f")));
    assert_eq!(parse_pads("[{}]f"), Ok((vec!["{}"], vec![], "f")));
}

#[test]
fn pads_written_around_a_text_are_found_again() {
    let names = ["a", "in put", "x{y}", "é", "p;q", "1,2"];
    let bodies = ["", " ", "f", "f{a:b}", " name ", "{", "a;b,c"];
    for (i, body) in bodies.iter().enumerate() {
        for n_in in 1..3 {
            for n_out in 1..3 {
                let ins: Vec<&str> = (0..n_in).map(|k| names[(i + k) % names.len()]).collect();
                let outs: Vec<&str> = (0..n_out).map(|k| names[(i + 2 * k + 1) % names.len()]).collect();
                let text = format!("[{}]{}[{}]", ins.join(":"), body, outs.join(":"));
                let (got_ins, got_outs, rest) = parse_pads(&text).unwrap();
                assert_eq!((&got_ins, &got_outs, rest), (&ins, &outs, *body), "{text}");
                let again = format!("[{}]{}[{}]", got_ins.join(":"), rest, got_outs.join(":"));
                assert_eq!(again, text);
            }
        }
    }
}

#[test]
fn what_parse_pads_gives_lies_in_the_text() {
    for text in ["f", " f ", "[a]f", "[a:b] f [c]", "f[c]", "[a][b]", "", "[ a ]", "x[ y : z ]"] {
        let (ins, outs, rest) = parse_pads(text).unwrap();
        assert_eq!(ins.is_empty(), !text.starts_with('['));
        let from = if text.starts_with('[') { text.find(']').unwrap() + 1 } else { 0 };
        let tail = &text[from..];
        let to = if tail.ends_with(']') { from + tail.rfind('[').unwrap() } else { text.len() };
        assert_eq!(rest, &text[from..to]);
        assert_eq!(outs.is_empty(), to == text.len());
        if from > 0 {
            let listed: Vec<&str> = text[1..from - 1].split(':').map(|x| x.trim()).collect();
            assert_eq!(ins, listed);
        }
        if to < text.len() {
            let listed: Vec<&str> =
                text[to + 1..text.len() - 1].split(':').map(|x| x.trim()).collect();
            assert_eq!(outs, listed);
        }
    }
}

#[test]
fn name_and_args_are_taken_apart() {
    assert_eq!(parse_name_args("scale{w=1}"), Ok(("scale", Some("w=1"))));
    assert_eq!(parse_name_args(" scale "), Ok(("scale", None)));
    assert_eq!(parse_name_args("a{b}{c}"), Ok(("a", Some("b}{c"))));
    assert_eq!(parse_name_args(""), Err(ParseError::UnknownSyntax));
    assert_eq!(parse_name_args("a[b"), Err(ParseError::UnbalancedPad));
    assert_eq!(parse_filter(" [i] f {1} [o] ").unwrap(), node("f", Some("1"), &["i"], &["o"]));
    assert_eq!(parse_filter(" \t"), Err(ParseError::EmptyChain));
}

#[test]
fn tokens_are_checked() {
    assert_eq!(check_token("scale"), None);
    assert_eq!(check_token("two words"), None);
    assert_eq!(check_token(""), Some(ParseError::UnknownSyntax));
    assert_eq!(check_token("a{"), Some(ParseError::UnknownSyntax));
    assert_eq!(check_token("a]"), Some(ParseError::UnbalancedPad));
    assert_eq!(check_token("{[}"), Some(ParseError::UnbalancedPad));
    assert_eq!(check_pad("mid"), None);
    assert_eq!(check_pad("a{b}"), None);
    assert_eq!(check_pad(""), Some(ParseError::UnknownSyntax));
    assert_eq!(check_pad("a["), Some(ParseError::UnbalancedPad));
    assert_eq!(check_pads(&vec!["a", "{", "b"]), None);
    assert_eq!(check_pads(&vec!["a", "", "b]"]), Some(ParseError::UnknownSyntax));
    assert_eq!(check_pads(&vec!["a", "]", ""]), Some(ParseError::UnbalancedPad));
}

#[test]
fn text_helpers() {
    assert_eq!(trim_str(" \t a b \r\n\x0C"), "a b");
    assert_eq!(trim_str(""), "");
    assert_eq!(trim_str("   "), "");
    assert_eq!(trim_str("x"), "x");
    assert_eq!(trim_str("\u{a0}\u{2003}x\u{3000}\u{b}"), "x");
    assert_eq!(trim_str("\u{200b}x\u{feff}"), "\u{200b}x\u{feff}");
    assert_eq!(split_str("a;b;;c", ';'), vec!["a", "b", "", "c"]);
    assert_eq!(split_str("", ';'), vec![""]);
    assert_eq!(split_str(";", ';'), vec!["", ""]);
    assert_eq!(split_str("héllo,wörld", ','), vec!["héllo", "wörld"]);
    assert!(same_text("abc", "abc"));
    assert!(!same_text("abc", "abd"));
    assert!(!same_text("abc", "ab"));
}

#[test]
fn blanks_are_the_white_space_characters() {
    let mut count = 0;
    for n in 0..=0x10FFFFu32 {
        if let Some(c) = char::from_u32(n) {
            assert_eq!(blank(c), c.is_whitespace(), "U+{n:04X}");
            if blank(c) {
                count += 1;
            }
        }
    }
    assert_eq!(count, 25);
    for text in [" a b ", "\u{a0}[x] f\u{2028}", "\t\n", "", "x\u{1680}"] {
        assert_eq!(trim_str(text), text.trim());
    }
}

#[test]
fn renders_the_text_of_a_graph() {
    let g = FilterGraph::new(vec![
        Chain {
            nodes: vec![node("a", Some("k=v"), &["i1", "i2"], &["m"]), node("b", None, &[], &[])],
        },
        Chain { nodes: vec![node("c", None, &["m"], &["o"])] },
    ]);
    assert_eq!(g.render(), "[i1:i2]a{k=v}[m],b;[m]c[o]");
    assert_eq!(FilterGraph::new(vec![]).render(), "");
}

#[test]
fn rendering_and_parsing_again_gives_the_same_graph() {
    for text in [
        "[in]filterA{x=1}[mid],filterB;[mid]filterC[out]",
        "  [ in : in2 ] scale { w=1 } [ out ] ,\tcrop\n; fade ",
        "[in]f{a=[1]:b={2}}[out]",
        "a;b;c",
        "x{}",
        "two words{ spaced }",
    ] {
        let g = parse_filtergraph(text).unwrap();
        let written = g.render();
        let again = parse_filtergraph(&written).unwrap();
        assert_eq!(again, g);
        assert_eq!(again.render(), written);
    }
}

#[test]
fn unicode_text_is_handled_by_character() {
    let g = parse_filtergraph("[é]flou{σ=2}[ü],netteté").unwrap();
    assert_eq!(
        g.chains()[0].nodes,
        vec![node("flou", Some("σ=2"), &["é"], &["ü"]), node("netteté", None, &[], &[])]
    );
}

#[test]
fn a_graph_iterates_over_its_chains() {
    let g = parse_filtergraph("a,b;c").unwrap();
    let lens: Vec<usize> = g.clone().into_iter().map(|c| c.nodes.len()).collect();
    assert_eq!(lens, vec![2, 1]);
    let mut names = Vec::new();
    for chain in g {
        for n in chain.nodes {
            names.push(n.name);
        }
    }
    assert_eq!(names, vec!["a", "b", "c"]);
}

#[test]
fn a_chain_declares_the_pads_of_its_filters() {
    let g = parse_filtergraph("[in]scale[mid:aux],sharpen[out];[mid]overlay").unwrap();
    let chains = g.chains();
    assert_eq!(chains[0].input_pads(), vec!["in"]);
    assert_eq!(chains[0].output_pads(), vec!["mid", "aux", "out"]);
    assert_eq!(chains[1].input_pads(), vec!["mid"]);
    assert_eq!(chains[1].output_pads(), Vec::<&str>::new());
}

/// A small generator of numbers, so that the runs repeat.
struct Lcg(u64);

impl Lcg {
    fn next(&mut self, bound: usize) -> usize {
        self.0 = self.0.wrapping_mul(6364136223846793005).wrapping_add(1442695040888963407);
        ((self.0 >> 33) as usize) % bound
    }

    fn word(&mut self, alphabet: &[char], min: usize, max: usize) -> String {
        let len = min + self.next(max - min + 1);
        (0..len).map(|_| alphabet[self.next(alphabet.len())]).collect()
    }
}

#[test]
fn well_formed_graphs_survive_writing_and_parsing() {
    let name_chars: Vec<char> = "abcXYZ019_-=.é".chars().collect();
    let arg_chars: Vec<char> = "ab=:1 []{}é".chars().collect();
    let mut rng = Lcg(7);
    for _ in 0..300 {
        let mut words: Vec<String> = Vec::new();
        let mut shape: Vec<Vec<(usize, Option<usize>, Vec<usize>, Vec<usize>)>> = Vec::new();
        for _ in 0..1 + rng.next(4) {
            let mut chain = Vec::new();
            for _ in 0..1 + rng.next(3) {
                let mut word = |rng: &mut Lcg, chars: &[char], min: usize| {
                    words.push(rng.word(chars, min, 5));
                    words.len() - 1
                };
                let name = word(&mut rng, &name_chars, 1);
                let args = if rng.next(2) == 0 { Some(word(&mut rng, &arg_chars, 0)) } else { None };
                let ins = (0..rng.next(3)).map(|_| word(&mut rng, &name_chars, 1)).collect();
                let outs = (0..rng.next(3)).map(|_| word(&mut rng, &name_chars, 1)).collect();
                chain.push((name, args, ins, outs));
            }
            shape.push(chain);
        }
        let pick = |ids: &Vec<usize>| ids.iter().map(|i| words[*i].as_str()).collect::<Vec<_>>();
        let graph = FilterGraph::new(
            shape
                .iter()
                .map(|chain| Chain {
                    nodes: chain
                        .iter()
                        .map(|(name, args, ins, outs)| FilterInvocation {
                            name: words[*name].as_str(),
                            args: args.map(|a| words[a].as_str()),
                            inpads: pick(ins),
                            outpads: pick(outs),
                        })
                        .collect(),
                })
                .collect(),
        );
        let text = graph.render();
        assert_eq!(parse_filtergraph(&text).as_ref(), Ok(&graph), "{text}");
    }
}

#[test]
fn any_text_parses_or_is_refused_with_a_reason() {
    let chars: Vec<char> = "ab[]{}:;, \t".chars().collect();
    let mut rng = Lcg(11);
    let mut accepted = 0;
    for _ in 0..2000 {
        let text = rng.word(&chars, 0, 12);
        match parse_filtergraph(&text) {
            Ok(g) => {
                accepted += 1;
                let written = g.render();
                assert_eq!(parse_filtergraph(&written).as_ref(), Ok(&g), "{text:?}");
                assert!(g.chains().iter().all(|c| !c.nodes.is_empty()));
            }
            Err(e) => assert!(matches!(
                e,
                ParseError::UnbalancedPad | ParseError::UnknownSyntax | ParseError::EmptyChain
            )),
        }
    }
    assert!(accepted > 0);
}
