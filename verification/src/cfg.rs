//! Control-flow graphs stored as dense adjacency lists.
//!
//! Nodes are the integers `0 .. len`. The graph is described by its successor
//! lists; predecessor lists are derived from them when the graph is built and
//! are never changed on their own.

use vstd::prelude::*;
use crate::error::{ParseError, ParseErrorKind, ParseErrorView};
use crate::lists::copy_lists;
use crate::text::{
    chars_of, find_char, find_from, lemma_find_from_bounds, line_ranges, parse_number, parse_u32,
    ranges_within, slices, split_lines, text_between, token_ranges, tokens,
};

verus! {

/// The larger of two numbers.
pub open spec fn max_u32(a: u32, b: u32) -> u32 {
    if a >= b {
        a
    } else {
        b
    }
}

/// The largest value of `s`, or 0 where `s` is empty.
pub open spec fn seq_max(s: Seq<u32>) -> u32
    decreases s.len(),
{
    if s.len() == 0 {
        0
    } else {
        max_u32(seq_max(s.drop_last()), s.last())
    }
}

/// The largest node identifier that an adjacency description mentions, as a
/// source or as a target, or 0 where it mentions none.
pub open spec fn adjacency_max_id(adj: Seq<(u32, Seq<u32>)>) -> u32
    decreases adj.len(),
{
    if adj.len() == 0 {
        0
    } else {
        max_u32(
            adjacency_max_id(adj.drop_last()),
            max_u32(adj.last().0, seq_max(adj.last().1)),
        )
    }
}

/// The successor list that an adjacency description gives to `node`: that of
/// the last entry for `node`, or the empty list where there is no entry.
pub open spec fn adjacency_successors(adj: Seq<(u32, Seq<u32>)>, node: int) -> Seq<u32>
    decreases adj.len(),
{
    if adj.len() == 0 {
        Seq::empty()
    } else if adj.last().0 == node {
        adj.last().1
    } else {
        adjacency_successors(adj.drop_last(), node)
    }
}

/// The successor lists of the graph that an adjacency description stands for.
pub open spec fn graph_of(adj: Seq<(u32, Seq<u32>)>) -> Seq<Seq<u32>> {
    Seq::new(
        (adjacency_max_id(adj) + 1) as nat,
        |node: int| adjacency_successors(adj, node),
    )
}

/// The edges that leave `node` towards `targets`, in the order of `targets`.
pub open spec fn node_edges(node: int, targets: Seq<u32>) -> Seq<(u32, u32)> {
    targets.map_values(|v: u32| (node as u32, v))
}

/// The edges of the first `n` nodes, by source and then by position in the
/// source's successor list.
pub open spec fn edges_upto(succ: Seq<Seq<u32>>, n: nat) -> Seq<(u32, u32)>
    decreases n,
{
    if n == 0 {
        Seq::empty()
    } else {
        edges_upto(succ, (n - 1) as nat) + node_edges(n - 1, succ[n - 1])
    }
}

/// All edges of a graph.
pub open spec fn edge_list(succ: Seq<Seq<u32>>) -> Seq<(u32, u32)> {
    edges_upto(succ, succ.len())
}

/// Whether an edge enters `v`.
pub open spec fn enters(v: int) -> spec_fn((u32, u32)) -> bool {
    |e: (u32, u32)| e.1 == v
}

/// The source of an edge.
pub open spec fn source() -> spec_fn((u32, u32)) -> u32 {
    |e: (u32, u32)| e.0
}

/// The sources of those edges of `edges` that enter `v`, in the order of `edges`.
pub open spec fn sources_into(edges: Seq<(u32, u32)>, v: int) -> Seq<u32> {
    edges.filter(enters(v)).map_values(source())
}

/// The predecessor list of `v`: the sources of the edges that enter it.
pub open spec fn predecessors_of(succ: Seq<Seq<u32>>, v: int) -> Seq<u32> {
    sources_into(edge_list(succ), v)
}

/// The largest length among the successor lists, or 0 where there is none.
pub open spec fn max_out_degree(succ: Seq<Seq<u32>>) -> nat
    decreases succ.len(),
{
    if succ.len() == 0 {
        0
    } else {
        let rest = max_out_degree(succ.drop_last());
        if rest >= succ.last().len() {
            rest
        } else {
            succ.last().len()
        }
    }
}

/// Every node that a successor list names is a node of the graph.
pub open spec fn targets_in_range(succ: Seq<Seq<u32>>) -> bool {
    forall|u: int, j: int|
        0 <= u < succ.len() && 0 <= j < succ[u].len() ==> (#[trigger] succ[u][j]) < succ.len()
}

/// Whether a node can stand for itself among the machine's integers with
/// one more to count it.
pub open spec fn fits_machine(node: u32) -> bool {
    node < usize::MAX
}

/// Whether every node that an adjacency description mentions fits the machine.
pub open spec fn ids_fit(adj: Seq<(u32, Seq<u32>)>) -> bool {
    forall|k: int|
        0 <= k < adj.len() ==> fits_machine((#[trigger] adj[k]).0) && forall|j: int|
            0 <= j < adj[k].1.len() ==> fits_machine(#[trigger] adj[k].1[j])
}

/// The largest value of a sequence is one of its values, or 0.
pub proof fn lemma_seq_max_attained(s: Seq<u32>)
    ensures
        seq_max(s) == 0 || s.contains(seq_max(s)),
    decreases s.len(),
{
    if s.len() > 0 {
        lemma_seq_max_attained(s.drop_last());
        if seq_max(s) == s.last() {
            assert(s[s.len() - 1] == seq_max(s));
        } else if seq_max(s) != 0 {
            let i = choose|i: int| 0 <= i < s.drop_last().len() && s.drop_last()[i] == seq_max(s);
            assert(s[i] == seq_max(s));
        }
    }
}

/// The nodes of an adjacency description fit the machine exactly if the
/// largest of them does.
pub proof fn lemma_ids_fit(adj: Seq<(u32, Seq<u32>)>)
    ensures
        ids_fit(adj) <==> adjacency_max_id(adj) < usize::MAX,
    decreases adj.len(),
{
    if adj.len() > 0 {
        let rest = adj.drop_last();
        let last = adj.last();
        lemma_ids_fit(rest);
        lemma_seq_max_attained(last.1);
        if ids_fit(adj) {
            assert(fits_machine(adj[adj.len() - 1].0));
            assert forall|k: int| 0 <= k < rest.len() implies fits_machine((#[trigger] rest[k]).0)
                && forall|j: int| 0 <= j < rest[k].1.len() ==> fits_machine(#[trigger] rest[k].1[j]) by {
                assert(rest[k] == adj[k]);
            }
            if seq_max(last.1) != 0 {
                let j = choose|j: int| 0 <= j < last.1.len() && last.1[j] == seq_max(last.1);
                assert(fits_machine(adj[adj.len() - 1].1[j]));
            }
        }
        if adjacency_max_id(adj) < usize::MAX {
            assert forall|k: int| 0 <= k < adj.len() implies fits_machine((#[trigger] adj[k]).0)
                && forall|j: int| 0 <= j < adj[k].1.len() ==> fits_machine(#[trigger] adj[k].1[j]) by {
                lemma_adjacency_max_id_bounds(adj, k);
                assert forall|j: int| 0 <= j < adj[k].1.len() implies fits_machine(
                    #[trigger] adj[k].1[j],
                ) by {
                    lemma_seq_max_bounds(adj[k].1, j);
                }
            }
        }
    }
}

/// No value of `s` is above `seq_max(s)`.
pub proof fn lemma_seq_max_bounds(s: Seq<u32>, j: int)
    requires
        0 <= j < s.len(),
    ensures
        s[j] <= seq_max(s),
    decreases s.len(),
{
    if j < s.len() - 1 {
        lemma_seq_max_bounds(s.drop_last(), j);
    }
}

/// No node that an entry mentions is above the largest identifier.
pub proof fn lemma_adjacency_max_id_bounds(adj: Seq<(u32, Seq<u32>)>, k: int)
    requires
        0 <= k < adj.len(),
    ensures
        adj[k].0 <= adjacency_max_id(adj),
        seq_max(adj[k].1) <= adjacency_max_id(adj),
    decreases adj.len(),
{
    if k < adj.len() - 1 {
        lemma_adjacency_max_id_bounds(adj.drop_last(), k);
    }
}

/// A successor list of `graph_of(adj)` names only nodes up to the largest identifier.
pub proof fn lemma_adjacency_successors_bounded(adj: Seq<(u32, Seq<u32>)>, node: int, j: int)
    requires
        0 <= j < adjacency_successors(adj, node).len(),
    ensures
        adjacency_successors(adj, node)[j] <= adjacency_max_id(adj),
    decreases adj.len(),
{
    if adj.len() > 0 {
        if adj.last().0 == node {
            lemma_seq_max_bounds(adj.last().1, j);
        } else {
            lemma_adjacency_successors_bounded(adj.drop_last(), node, j);
        }
    }
}

/// Every successor in `graph_of(adj)` is a node of that graph.
pub proof fn lemma_graph_of_in_range(adj: Seq<(u32, Seq<u32>)>)
    ensures
        targets_in_range(graph_of(adj)),
{
    let g = graph_of(adj);
    assert forall|u: int, j: int| 0 <= u < g.len() && 0 <= j < g[u].len() implies (#[trigger] g[u][j])
        < g.len() by {
        lemma_adjacency_successors_bounded(adj, u, j);
    }
}

/// No node has more successors than the largest out-degree.
pub proof fn lemma_max_out_degree_bounds(succ: Seq<Seq<u32>>, u: int)
    requires
        0 <= u < succ.len(),
    ensures
        succ[u].len() <= max_out_degree(succ),
    decreases succ.len(),
{
    if u < succ.len() - 1 {
        lemma_max_out_degree_bounds(succ.drop_last(), u);
    }
}

/// The largest out-degree is the out-degree of some node, unless there is no node.
pub proof fn lemma_max_out_degree_attained(succ: Seq<Seq<u32>>)
    ensures
        succ.len() == 0 ==> max_out_degree(succ) == 0,
        succ.len() > 0 ==> exists|u: int| 0 <= u < succ.len() && succ[u].len() == max_out_degree(succ),
    decreases succ.len(),
{
    if succ.len() > 0 {
        let rest = succ.drop_last();
        lemma_max_out_degree_attained(rest);
        if rest.len() > 0 && max_out_degree(rest) >= succ.last().len() {
            let u = choose|u: int| 0 <= u < rest.len() && rest[u].len() == max_out_degree(rest);
            assert(succ[u].len() == max_out_degree(succ));
        } else {
            assert(succ[succ.len() - 1].len() == max_out_degree(succ));
        }
    }
}

/// An edge is in the list of the first `n` nodes exactly if its source is one
/// of them and its target stands in the source's successor list.
pub proof fn lemma_edges_upto_contains(succ: Seq<Seq<u32>>, n: nat, u: u32, v: u32)
    requires
        n <= succ.len(),
        n <= u32::MAX + 1,
    ensures
        edges_upto(succ, n).contains((u, v)) <==> (u < n && succ[u as int].contains(v)),
    decreases n,
{
    if n > 0 {
        let before = edges_upto(succ, (n - 1) as nat);
        let here = node_edges(n - 1, succ[n - 1]);
        lemma_edges_upto_contains(succ, (n - 1) as nat, u, v);
        if before.contains((u, v)) {
            let i = choose|i: int| 0 <= i < before.len() && before[i] == (u, v);
            assert((before + here)[i] == (u, v));
        }
        if u == n - 1 && succ[u as int].contains(v) {
            let j = choose|j: int| 0 <= j < succ[u as int].len() && succ[u as int][j] == v;
            assert(here[j] == (u, v));
            assert((before + here)[before.len() + j] == (u, v));
        }
        if (before + here).contains((u, v)) {
            let i = choose|i: int| 0 <= i < (before + here).len() && (before + here)[i] == (u, v);
            if i < before.len() {
                assert(before[i] == (u, v));
            } else {
                let j = i - before.len();
                assert(here[j] == (u, v));
                assert(succ[n - 1][j] == v);
            }
        }
    }
}

/// The predecessor lists are the inverse relation of the successor lists:
/// `u` is a predecessor of `v` exactly if `v` is a successor of `u`.
pub proof fn lemma_predecessors_invert_successors(succ: Seq<Seq<u32>>, u: u32, v: u32)
    requires
        succ.len() <= u32::MAX + 1,
    ensures
        predecessors_of(succ, v as int).contains(u) <==> (u < succ.len() && succ[u as int].contains(v)),
{
    let edges = edge_list(succ);
    let entering = edges.filter(enters(v as int));
    let sources = entering.map_values(source());
    lemma_edges_upto_contains(succ, succ.len(), u, v);
    broadcast use Seq::lemma_filter_contains_rev;

    if sources.contains(u) {
        let i = choose|i: int| 0 <= i < sources.len() && sources[i] == u;
        let e = entering[i];
        assert(entering.contains(e));
        edges.lemma_filter_pred(enters(v as int), i);
        assert(e == (u, v));
    }
    if edges.contains((u, v)) {
        let k = choose|k: int| 0 <= k < edges.len() && edges[k] == (u, v);
        edges.lemma_filter_contains(enters(v as int), k);
        let i = choose|i: int| 0 <= i < entering.len() && entering[i] == (u, v);
        assert(sources[i] == u);
    }
}

/// The character that starts a comment in an adjacency text.
pub open spec fn comment_mark() -> char {
    '#'
}

/// A line without its comment: the part before the first `#`.
pub open spec fn without_comment(line: Seq<char>) -> Seq<char> {
    line.take(find_from(line, comment_mark(), 0))
}

/// The node that a token writes: a number that fits the machine.
pub open spec fn parse_node(token: Seq<char>) -> Option<u32> {
    match parse_u32(token) {
        Some(node) => if fits_machine(node) {
            Some(node)
        } else {
            None
        },
        None => None,
    }
}

/// The position of the first token at or after `from` that writes no node,
/// or the number of tokens where all of them do.
pub open spec fn first_bad_node(words: Seq<Seq<char>>, from: int) -> int
    decreases words.len() - from,
{
    if from >= words.len() {
        words.len() as int
    } else if parse_node(words[from]) is None {
        from
    } else {
        first_bad_node(words, from + 1)
    }
}

/// The nodes that tokens write.
pub open spec fn nodes_of(words: Seq<Seq<char>>) -> Seq<u32> {
    words.map_values(|w: Seq<char>| parse_node(w).unwrap())
}

/// Tokens that write nodes are passed over in the search for the first that writes none.
pub proof fn lemma_first_bad_node(words: Seq<Seq<char>>, from: int, upto: int)
    requires
        0 <= from <= upto <= words.len(),
        forall|i: int| from <= i < upto ==> parse_node(#[trigger] words[i]) is Some,
    ensures
        first_bad_node(words, from) == first_bad_node(words, upto),
    decreases upto - from,
{
    if from < upto {
        lemma_first_bad_node(words, from + 1, upto);
    }
}

/// The error of the given kind at `token` on `line`.
pub open spec fn entry_error(line: nat, kind: ParseErrorKind, token: Seq<char>) -> Result<
    (u32, Seq<u32>),
    ParseErrorView,
> {
    Err(ParseErrorView { line, kind, token })
}

/// The entry that the tokens of an adjacency line write: a node, then its
/// successors in order. A token that writes a number too large for the
/// machine is no node.
pub open spec fn adjacency_entry(words: Seq<Seq<char>>, line: nat) -> Result<
    (u32, Seq<u32>),
    ParseErrorView,
> {
    let args = words.skip(1);
    let bad = first_bad_node(args, 0);
    match parse_node(words[0]) {
        None => entry_error(line, ParseErrorKind::InvalidNode, words[0]),
        Some(node) => if bad < args.len() {
            entry_error(line, ParseErrorKind::InvalidSuccessor, args[bad])
        } else {
            Ok((node, nodes_of(args)))
        },
    }
}

/// The entries that the first `n` lines of an adjacency text write, up to the
/// first error. A line that holds no token before its comment writes none.
/// Lines count from 1.
pub open spec fn adjacency_lines(lines: Seq<Seq<char>>, n: nat) -> Result<
    Seq<(u32, Seq<u32>)>,
    ParseErrorView,
>
    decreases n,
{
    if n == 0 {
        Ok(Seq::empty())
    } else {
        let words = tokens(without_comment(lines[n - 1]));
        match adjacency_lines(lines, (n - 1) as nat) {
            Ok(adj) => if words.len() == 0 {
                Ok(adj)
            } else {
                match adjacency_entry(words, n) {
                    Ok(entry) => Ok(adj.push(entry)),
                    Err(e) => Err(e),
                }
            },
            Err(e) => Err(e),
        }
    }
}

/// The adjacency description that a text writes, or the first error in it.
pub open spec fn parse_adjacency(text: Seq<char>) -> Result<Seq<(u32, Seq<u32>)>, ParseErrorView> {
    adjacency_lines(split_lines(text), split_lines(text).len())
}

/// The first error in a text is the result, whatever follows it.
pub proof fn lemma_adjacency_error_stays(lines: Seq<Seq<char>>, n: nat, m: nat)
    requires
        n <= m,
        adjacency_lines(lines, n) is Err,
    ensures
        adjacency_lines(lines, m) == adjacency_lines(lines, n),
    decreases m,
{
    if n < m {
        lemma_adjacency_error_stays(lines, n, (m - 1) as nat);
    }
}

/// Reads the node that the characters between `start` and `end` write.
fn read_node(chars: &Vec<char>, start: usize, end: usize) -> (node: Option<u32>)
    requires
        start <= end <= chars@.len(),
    ensures
        node == parse_node(chars@.subrange(start as int, end as int)),
{
    match parse_number(chars, start, end) {
        Some(v) => if (v as usize) < usize::MAX {
            Some(v)
        } else {
            None
        },
        None => None,
    }
}

/// Reads one line of an adjacency text, given by its tokens.
fn read_entry(input: &str, chars: &Vec<char>, toks: &Vec<(usize, usize)>, line: usize) -> (r: Result<
    (u32, Vec<u32>),
    ParseError,
>)
    requires
        input@ == chars@,
        toks@.len() > 0,
        ranges_within(toks@, 0, chars@.len() as int),
    ensures
        match adjacency_entry(slices(chars@, toks@), line as nat) {
            Ok(entry) => r matches Ok(found) && found.deep_view() == entry,
            Err(e) => r matches Err(err) && err@ == e,
        },
        r matches Ok(found) ==> fits_machine(found.0) && forall|j: int|
            0 <= j < found.1@.len() ==> fits_machine(#[trigger] found.1@[j]),
{
    let ghost words = slices(chars@, toks@);
    let ghost args = words.skip(1);
    let from = toks[0].0;
    let to = toks[0].1;
    proof {
        assert(words[0] == chars@.subrange(from as int, to as int));
    }
    let node = match read_node(chars, from, to) {
        Some(v) => v,
        None => {
            let token = text_between(input, from, to);
            return Err(ParseError { line, kind: ParseErrorKind::InvalidNode, token });
        },
    };
    let mut targets: Vec<u32> = Vec::new();
    let mut t: usize = 1;
    proof {
        assert(targets@ =~= nodes_of(args.take(0)));
    }
    while t < toks.len()
        invariant
            1 <= t <= toks@.len(),
            input@ == chars@,
            words == slices(chars@, toks@),
            args == words.skip(1),
            parse_node(words[0]) == Some(node),
            ranges_within(toks@, 0, chars@.len() as int),
            targets@ == nodes_of(args.take(t - 1)),
            fits_machine(node),
            forall|j: int| 0 <= j < targets@.len() ==> fits_machine(#[trigger] targets@[j]),
            forall|i: int| 0 <= i < t - 1 ==> parse_node(#[trigger] args[i]) is Some,
        decreases toks@.len() - t,
    {
        let from = toks[t].0;
        let to = toks[t].1;
        proof {
            assert(args[t - 1] == chars@.subrange(from as int, to as int));
        }
        match read_node(chars, from, to) {
            Some(v) => {
                proof {
                    assert(targets@.push(v) =~= nodes_of(args.take(t as int)));
                }
                targets.push(v);
            },
            None => {
                let token = text_between(input, from, to);
                proof {
                    lemma_first_bad_node(args, 0, t - 1);
                }
                return Err(ParseError { line, kind: ParseErrorKind::InvalidSuccessor, token });
            },
        }
        t += 1;
    }
    proof {
        lemma_first_bad_node(args, 0, args.len() as int);
        assert(args.take(args.len() as int) == args);
        assert((node, targets).deep_view() == (node, targets@));
    }
    Ok((node, targets))
}

/// Reads the adjacency description that a text writes: for every line that
/// holds a token before its comment, the node and its successors.
pub fn read_adjacency(input: &str) -> (r: Result<Vec<(u32, Vec<u32>)>, ParseError>)
    ensures
        match parse_adjacency(input@) {
            Ok(adj) => r matches Ok(found) && found.deep_view() == adj,
            Err(e) => r matches Err(err) && err@ == e,
        },
        r matches Ok(found) ==> ids_fit(found.deep_view()),
{
    let chars = chars_of(input);
    let lines = line_ranges(&chars);
    let ghost texts = split_lines(chars@);
    let mut adj: Vec<(u32, Vec<u32>)> = Vec::new();
    let mut k: usize = 0;
    proof {
        assert(adj.deep_view() =~= Seq::empty());
    }
    while k < lines.len()
        invariant
            k <= lines@.len(),
            input@ == chars@,
            texts == split_lines(chars@),
            texts == slices(chars@, lines@),
            ranges_within(lines@, 0, chars@.len() as int),
            adjacency_lines(texts, k as nat) == Ok::<Seq<(u32, Seq<u32>)>, ParseErrorView>(
                adj.deep_view(),
            ),
            ids_fit(adj.deep_view()),
        decreases lines@.len() - k,
    {
        let start = lines[k].0;
        let end = lines[k].1;
        let stop = find_char(&chars, '#', start, end);
        let toks = token_ranges(&chars, start, stop);
        proof {
            let text = texts[k as int];
            assert(text == chars@.subrange(start as int, end as int));
            lemma_find_from_bounds(text, comment_mark(), 0);
            let cut = find_from(text, comment_mark(), 0);
            if cut < stop - start {
                assert(chars@[start + cut] == text[cut]);
            }
            if stop - start < cut {
                assert(text[stop - start] == chars@[stop as int]);
            }
            assert(cut == stop - start);
            assert(without_comment(text) == chars@.subrange(start as int, stop as int));
        }
        if toks.len() > 0 {
            match read_entry(input, &chars, &toks, k + 1) {
                Ok(entry) => {
                    let ghost before = adj.deep_view();
                    let ghost pushed = entry.deep_view();
                    adj.push(entry);
                    proof {
                        assert(adj.deep_view() =~= before.push(pushed));
                        assert forall|k: int| 0 <= k < adj.deep_view().len() implies fits_machine(
                            (#[trigger] adj.deep_view()[k]).0,
                        ) && forall|j: int|
                            0 <= j < adj.deep_view()[k].1.len() ==> fits_machine(
                                #[trigger] adj.deep_view()[k].1[j],
                            ) by {
                            if k < before.len() {
                                assert(adj.deep_view()[k] == before[k]);
                            }
                        }
                    }
                },
                Err(e) => {
                    proof {
                        lemma_adjacency_error_stays(texts, (k + 1) as nat, texts.len());
                    }
                    return Err(e);
                },
            }
        }
        k += 1;
    }
    Ok(adj)
}

/// A control-flow graph: for every node, the ordered list of its successors
/// and the list of its predecessors.
#[derive(Debug)]
pub struct Cfg {
    succ: Vec<Vec<u32>>,
    pred: Vec<Vec<u32>>,
}

impl View for Cfg {
    type V = Seq<Seq<u32>>;

    /// The successor lists, by node.
    closed spec fn view(&self) -> Seq<Seq<u32>> {
        self.succ.deep_view()
    }
}

impl Clone for Cfg {
    fn clone(&self) -> (copy: Cfg)
        ensures
            copy@ == self@,
    {
        proof {
            use_type_invariant(self);
        }
        let succ = copy_lists(&self.succ);
        let pred = copy_lists(&self.pred);
        proof {
            assert(succ.deep_view() =~~= self.succ.deep_view());
        }
        Cfg { succ, pred }
    }
}

impl Cfg {
    #[verifier::type_invariant]
    spec fn well_formed(&self) -> bool {
        &&& 0 < self.succ@.len() <= u32::MAX + 1
        &&& self.pred@.len() == self.succ@.len()
        &&& targets_in_range(self.succ.deep_view())
        &&& forall|v: int|
            0 <= v < self.pred@.len() ==> (#[trigger] self.pred@[v])@ == predecessors_of(
                self.succ.deep_view(),
                v,
            )
    }

    /// Builds the graph that `adj` describes: a list of nodes, each with its
    /// ordered successors. The graph has the nodes `0 ..= m`, where `m` is the
    /// largest identifier that `adj` mentions. A node without an entry has no
    /// successors; of several entries for one node the last counts. The
    /// nodes must fit the machine, so that their number is one of its integers.
    pub fn from_adjacency(adj: Vec<(u32, Vec<u32>)>) -> (g: Cfg)
        requires
            ids_fit(adj.deep_view()),
        ensures
            g@ == graph_of(adj.deep_view()),
    {
        let ghost model = adj.deep_view();
        proof {
            lemma_ids_fit(model);
        }
        let max_id = largest_id(&adj);
        let n: usize = (max_id as usize) + 1;
        let mut succ = empty_lists(n);
        let mut k: usize = 0;
        while k < adj.len()
            invariant
                k <= adj.len(),
                model == adj.deep_view(),
                max_id == adjacency_max_id(model),
                succ@.len() == n,
                n == max_id + 1,
                forall|i: int|
                    0 <= i < n ==> (#[trigger] succ@[i])@ == adjacency_successors(model.take(k as int), i),
            decreases adj.len() - k,
        {
            let src = adj[k].0;
            let targets = adj[k].1.clone();
            proof {
                lemma_adjacency_max_id_bounds(model, k as int);
                assert(model.take(k + 1).drop_last() == model.take(k as int));
                assert(model.take(k + 1).last() == (src, targets@));
            }
            succ.set(src as usize, targets);
            k += 1;
        }
        proof {
            assert(model.take(k as int) == model);
            assert(succ.deep_view() =~~= graph_of(model));
            lemma_graph_of_in_range(model);
        }
        let pred = predecessor_lists(&succ);
        Cfg { succ, pred }
    }

    /// Builds the graph that `adj` describes where its nodes can be counted
    /// in the machine's integers, and gives `None` where they cannot.
    pub fn try_from_adjacency(adj: Vec<(u32, Vec<u32>)>) -> (g: Option<Cfg>)
        ensures
            g is Some <==> ids_fit(adj.deep_view()),
            g matches Some(graph) ==> graph@ == graph_of(adj.deep_view()),
    {
        proof {
            lemma_ids_fit(adj.deep_view());
        }
        if (largest_id(&adj) as usize) < usize::MAX {
            Some(Cfg::from_adjacency(adj))
        } else {
            None
        }
    }

    /// Reads a graph from an adjacency text: one node per line, written as the
    /// node followed by its successors. What follows a `#` on a line is a
    /// comment; a line that holds nothing else is passed over. The result is
    /// the graph of the entries, or the first error with its line.
    pub fn from_text(input: &str) -> (r: Result<Cfg, ParseError>)
        ensures
            match parse_adjacency(input@) {
                Ok(adj) => r matches Ok(g) && g@ == graph_of(adj),
                Err(e) => r matches Err(err) && err@ == e,
            },
    {
        match read_adjacency(input) {
            Ok(adj) => Ok(Cfg::from_adjacency(adj)),
            Err(e) => Err(e),
        }
    }

    /// The number of nodes.
    pub fn len(&self) -> (n: usize)
        ensures
            n == self@.len(),
    {
        self.succ.len()
    }

    /// Whether the graph has no node.
    pub fn is_empty(&self) -> (b: bool)
        ensures
            b == (self@.len() == 0),
    {
        self.succ.len() == 0
    }

    /// The nodes, in increasing order.
    pub fn nodes(&self) -> (r: Vec<u32>)
        ensures
            r@ == Seq::new(self@.len(), |i: int| i as u32),
    {
        proof {
            use_type_invariant(self);
        }
        let n = self.succ.len();
        let mut r: Vec<u32> = Vec::new();
        let mut i: usize = 0;
        while i < n
            invariant
                i <= n,
                n <= u32::MAX + 1,
                r@ == Seq::new(i as nat, |k: int| k as u32),
            decreases n - i,
        {
            r.push(i as u32);
            i += 1;
            assert(r@ == Seq::new(i as nat, |k: int| k as u32));
        }
        r
    }

    /// The ordered successors of `n`; none where `n` is no node of the graph.
    pub fn successors(&self, n: u32) -> (s: &[u32])
        ensures
            s@ == successors_of(self@, n),
    {
        if (n as usize) < self.succ.len() {
            self.succ[n as usize].as_slice()
        } else {
            &[]
        }
    }

    /// The predecessors of `n`: the sources of the edges that enter `n`, by
    /// source and then by position in the source's successor list.
    pub fn predecessors(&self, n: u32) -> (p: &[u32])
        ensures
            p@ == predecessors_of(self@, n as int),
    {
        proof {
            use_type_invariant(self);
        }
        if (n as usize) < self.pred.len() {
            self.pred[n as usize].as_slice()
        } else {
            proof {
                lemma_no_edge_leaves_range(self@, self@.len(), n as int);
            }
            &[]
        }
    }

    /// All edges as `(source, target)`, by source and then by position in the
    /// source's successor list.
    pub fn edges(&self) -> (r: Vec<(u32, u32)>)
        ensures
            r@ == edge_list(self@),
    {
        proof {
            use_type_invariant(self);
        }
        let n = self.succ.len();
        let mut r: Vec<(u32, u32)> = Vec::new();
        let mut u: usize = 0;
        while u < n
            invariant
                u <= n,
                n == self.succ@.len(),
                n <= u32::MAX + 1,
                r@ == edges_upto(self@, u as nat),
            decreases n - u,
        {
            let targets = &self.succ[u];
            let mut j: usize = 0;
            while j < targets.len()
                invariant
                    j <= targets.len(),
                    u < n,
                    n <= u32::MAX + 1,
                    r@ == edges_upto(self@, u as nat) + node_edges(u as int, targets@.take(j as int)),
                decreases targets.len() - j,
            {
                r.push((u as u32, targets[j]));
                proof {
                    lemma_node_edges_push(u as int, targets@, j as int);
                }
                j += 1;
            }
            proof {
                assert(targets@.take(j as int) == targets@);
                assert(self@[u as int] == targets@);
            }
            u += 1;
        }
        r
    }

    /// The largest number of successors that any node has.
    pub fn max_successors(&self) -> (k: usize)
        ensures
            k == max_out_degree(self@),
    {
        let n = self.succ.len();
        let mut k: usize = 0;
        let mut u: usize = 0;
        while u < n
            invariant
                u <= n,
                n == self.succ@.len(),
                k == max_out_degree(self@.take(u as int)),
            decreases n - u,
        {
            proof {
                assert(self@.take(u + 1).drop_last() == self@.take(u as int));
                assert(self@.take(u + 1).last() == self.succ@[u as int]@);
            }
            if self.succ[u].len() > k {
                k = self.succ[u].len();
            }
            u += 1;
        }
        proof {
            assert(self@.take(n as int) == self@);
        }
        k
    }
}

/// The successor list of `n` in a graph, empty where `n` is not one of its nodes.
pub open spec fn successors_of(succ: Seq<Seq<u32>>, n: u32) -> Seq<u32> {
    if n < succ.len() {
        succ[n as int]
    } else {
        Seq::empty()
    }
}

proof fn lemma_node_edges_push(node: int, targets: Seq<u32>, j: int)
    requires
        0 <= j < targets.len(),
    ensures
        node_edges(node, targets.take(j + 1)) == node_edges(node, targets.take(j)).push(
            (node as u32, targets[j]),
        ),
{
    assert(node_edges(node, targets.take(j + 1)) =~= node_edges(node, targets.take(j)).push(
        (node as u32, targets[j]),
    ));
}

proof fn lemma_sources_into_push(edges: Seq<(u32, u32)>, e: (u32, u32), v: int)
    ensures
        sources_into(edges.push(e), v) == if e.1 == v {
            sources_into(edges, v).push(e.0)
        } else {
            sources_into(edges, v)
        },
{
    edges.lemma_filter_push(e, enters(v));
    if e.1 == v {
        assert(edges.push(e).filter(enters(v)) == edges.filter(enters(v)).push(e));
        assert(edges.filter(enters(v)).push(e).map_values(source()) =~= edges.filter(
            enters(v),
        ).map_values(source()).push(e.0));
    }
}

/// Where every successor is a node below `bound`, no edge enters a node from `bound` on.
proof fn lemma_no_edge_leaves_range(succ: Seq<Seq<u32>>, n: nat, v: int)
    requires
        n <= succ.len(),
        targets_in_range(succ),
        v >= succ.len(),
    ensures
        sources_into(edges_upto(succ, n), v) == Seq::<u32>::empty(),
    decreases n,
{
    if n == 0 {
        assert(edges_upto(succ, n).filter(enters(v)) =~= Seq::empty()) by {
            reveal(Seq::filter);
        }
    } else {
        lemma_no_edge_leaves_range(succ, (n - 1) as nat, v);
        let before = edges_upto(succ, (n - 1) as nat);
        let here = node_edges(n - 1, succ[n - 1]);
        Seq::filter_distributes_over_add(before, here, enters(v));
        assert forall|i: int| 0 <= i < here.len() implies !enters(v)(#[trigger] here[i]) by {
            assert(succ[n - 1][i] < succ.len());
        }
        here.lemma_all_neg_filter_empty(enters(v));
        assert(before.filter(enters(v)).len() == sources_into(before, v).len());
        assert((before + here).filter(enters(v)) =~= Seq::empty());
    }
}

/// The largest node identifier that an adjacency description mentions, or 0
/// where it mentions none.
pub fn largest_id(adj: &Vec<(u32, Vec<u32>)>) -> (m: u32)
    ensures
        m == adjacency_max_id(adj.deep_view()),
{
    let ghost model = adj.deep_view();
    let mut m: u32 = 0;
    let mut k: usize = 0;
    while k < adj.len()
        invariant
            k <= adj.len(),
            model == adj.deep_view(),
            m == adjacency_max_id(model.take(k as int)),
        decreases adj.len() - k,
    {
        let src = adj[k].0;
        let targets = &adj[k].1;
        let mut here: u32 = 0;
        let mut j: usize = 0;
        while j < targets.len()
            invariant
                j <= targets.len(),
                here == seq_max(targets@.take(j as int)),
            decreases targets.len() - j,
        {
            proof {
                assert(targets@.take(j + 1).drop_last() == targets@.take(j as int));
            }
            if targets[j] > here {
                here = targets[j];
            }
            j += 1;
        }
        proof {
            assert(targets@.take(j as int) == targets@);
            assert(model.take(k + 1).drop_last() == model.take(k as int));
            assert(model.take(k + 1).last() == (src, targets@));
        }
        if src > here {
            here = src;
        }
        if here > m {
            m = here;
        }
        k += 1;
    }
    proof {
        assert(model.take(k as int) == model);
    }
    m
}

fn empty_lists(n: usize) -> (lists: Vec<Vec<u32>>)
    ensures
        lists@.len() == n,
        forall|i: int| 0 <= i < n ==> (#[trigger] lists@[i])@ == Seq::<u32>::empty(),
{
    let mut lists: Vec<Vec<u32>> = Vec::new();
    let mut i: usize = 0;
    while i < n
        invariant
            i <= n,
            lists@.len() == i,
            forall|k: int| 0 <= k < i ==> (#[trigger] lists@[k])@ == Seq::<u32>::empty(),
        decreases n - i,
    {
        lists.push(Vec::new());
        i += 1;
    }
    lists
}

/// Derives the predecessor lists from the successor lists.
fn predecessor_lists(succ: &Vec<Vec<u32>>) -> (pred: Vec<Vec<u32>>)
    requires
        succ@.len() <= u32::MAX + 1,
        targets_in_range(succ.deep_view()),
    ensures
        pred@.len() == succ@.len(),
        forall|v: int|
            0 <= v < pred@.len() ==> (#[trigger] pred@[v])@ == predecessors_of(succ.deep_view(), v),
{
    let ghost model = succ.deep_view();
    let n = succ.len();
    let mut pred = empty_lists(n);
    let mut u: usize = 0;
    proof {
        assert forall|v: int| 0 <= v < n implies (#[trigger] pred@[v])@ == sources_into(
            edges_upto(model, 0),
            v,
        ) by {
            reveal(Seq::filter);
            assert(edges_upto(model, 0).filter(enters(v)) =~= Seq::empty());
        }
    }
    while u < n
        invariant
            u <= n,
            n == succ@.len(),
            n <= u32::MAX + 1,
            model == succ.deep_view(),
            targets_in_range(model),
            pred@.len() == n,
            forall|v: int|
                0 <= v < n ==> (#[trigger] pred@[v])@ == sources_into(edges_upto(model, u as nat), v),
        decreases n - u,
    {
        let targets = &succ[u];
        let mut j: usize = 0;
        let ghost before = edges_upto(model, u as nat);
        proof {
            assert(node_edges(u as int, targets@.take(0)) =~= Seq::empty());
            assert(before + node_edges(u as int, targets@.take(0)) == before);
        }
        while j < targets.len()
            invariant
                j <= targets.len(),
                u < n,
                n == succ@.len(),
                n <= u32::MAX + 1,
                targets@ == model[u as int],
                targets_in_range(model),
                model.len() == n,
                pred@.len() == n,
                forall|v: int|
                    0 <= v < n ==> (#[trigger] pred@[v])@ == sources_into(
                        before + node_edges(u as int, targets@.take(j as int)),
                        v,
                    ),
            decreases targets.len() - j,
        {
            let w = targets[j];
            let ghost edges = before + node_edges(u as int, targets@.take(j as int));
            assert(model[u as int][j as int] < model.len());
            pred[w as usize].push(u as u32);
            proof {
                lemma_node_edges_push(u as int, targets@, j as int);
                assert(before + node_edges(u as int, targets@.take(j + 1)) == edges.push(
                    (u as u32, w),
                ));
                assert forall|v: int| 0 <= v < n implies (#[trigger] pred@[v])@ == sources_into(
                    edges.push((u as u32, w)),
                    v,
                ) by {
                    lemma_sources_into_push(edges, (u as u32, w), v);
                }
            }
            j += 1;
        }
        proof {
            assert(targets@.take(j as int) == targets@);
        }
        u += 1;
    }
    pred
}

} // verus!
