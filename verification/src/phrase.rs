//! The phrase graph builder: one node per letter, directed edges from the
//! connection table, and the nearest-letter fallback for nodes the table
//! leaves unconnected.

use vstd::prelude::*;

use crate::alphabet::{connection_row, connections, letter_distance, row_contains};
use crate::graph::{
    graph_add_edge, graph_add_node, graph_edge_list, graph_edges, graph_new, graph_node_slots,
    graph_edge_slots, graph_nodes,
};
use crate::parse::{
    lemma_phrase_words_total, lemma_phrase_words_wellformed, lemma_total_len_mono, phrase_words,
    tokenize, total_len, wf_word,
};
use petgraph::stable_graph::StableGraph;
use vstd::string::StringSliceAdditionalSpecFns;

verus! {

broadcast use vstd::seq_lib::group_to_multiset_ensures;

/// The longest phrase text, in bytes, that the builder accepts; it keeps
/// every node and edge index within the graph's 32-bit index type.
pub const MAX_PHRASE_LEN: usize = 32768;

/// One word of the phrase: its canonicalized text and one graph node per
/// letter, index-aligned with the text.
pub struct Word {
    pub text: Vec<u8>,
    pub nodes: Vec<usize>,
}

impl Word {
    /// A well-formed word: non-empty uppercase text, one node per letter.
    pub open spec fn wf(self) -> bool {
        wf_word(self.text@) && self.nodes@.len() == self.text@.len()
    }

    pub fn new(text: Vec<u8>, nodes: Vec<usize>) -> (w: Word)
        ensures
            w.text == text,
            w.nodes == nodes,
    {
        Word { text, nodes }
    }
}

impl Default for Word {
    /// The empty word: no letters, no nodes.
    fn default() -> (w: Word)
        ensures
            w.text@.len() == 0,
            w.nodes@.len() == 0,
    {
        Word { text: Vec::new(), nodes: Vec::new() }
    }
}

/// Whether the letters at positions `i` and `j` of `w` are related by the
/// connection table, in either direction.
pub open spec fn linked_pair(w: Seq<u8>, i: int, j: int) -> bool {
    connection_row(w[i]).contains(w[j]) || connection_row(w[j]).contains(w[i])
}

/// Whether node `i` has any edge from the table step, incoming or outgoing.
pub open spec fn has_table_link(w: Seq<u8>, i: int) -> bool {
    exists|j: int| 0 <= j < w.len() && #[trigger] linked_pair(w, i, j)
}

/// The table edges out of node `i` toward nodes `0..upto`, in node order.
pub open spec fn node_table_edges(w: Seq<u8>, ns: Seq<usize>, i: int, upto: int) -> Seq<
    (usize, usize),
>
    decreases upto,
{
    if upto <= 0 {
        Seq::empty()
    } else {
        let rest = node_table_edges(w, ns, i, upto - 1);
        if connection_row(w[i]).contains(w[upto - 1]) {
            rest.push((ns[i], ns[upto - 1]))
        } else {
            rest
        }
    }
}

/// All table edges of the word's nodes `0..upto`, in node order.
pub open spec fn table_edges(w: Seq<u8>, ns: Seq<usize>, upto: int) -> Seq<(usize, usize)>
    decreases upto,
{
    if upto <= 0 {
        Seq::empty()
    } else {
        table_edges(w, ns, upto - 1) + node_table_edges(w, ns, upto - 1, w.len() as int)
    }
}

/// The index the fallback rule picks among `0..upto`: the node, other than
/// `i`, whose letter is nearest in the alphabet, earliest occurrence first;
/// -1 while there is none.
pub open spec fn fallback_best(w: Seq<u8>, i: int, upto: int) -> int
    decreases upto,
{
    if upto <= 0 {
        -1
    } else {
        let prev = fallback_best(w, i, upto - 1);
        let j = upto - 1;
        if j == i {
            prev
        } else if prev == -1 {
            j
        } else if letter_distance(w[i], w[j]) < letter_distance(w[i], w[prev]) {
            j
        } else {
            prev
        }
    }
}

/// The node the fallback rule connects node `i` to.
pub open spec fn fallback_target(w: Seq<u8>, i: int) -> int {
    fallback_best(w, i, w.len() as int)
}

/// The fallback edges of the word's nodes `0..upto`: one outgoing edge for
/// each node the table left without any link, when the word has at least
/// two letters.
pub open spec fn fallback_edges(w: Seq<u8>, ns: Seq<usize>, upto: int) -> Seq<(usize, usize)>
    decreases upto,
{
    if upto <= 0 {
        Seq::empty()
    } else {
        let rest = fallback_edges(w, ns, upto - 1);
        let i = upto - 1;
        if !has_table_link(w, i) && w.len() >= 2 {
            rest.push((ns[i], ns[fallback_target(w, i)]))
        } else {
            rest
        }
    }
}

/// Every edge of one word: the table edges, then the fallback edges.
pub open spec fn word_edges(w: Seq<u8>, ns: Seq<usize>) -> Seq<(usize, usize)> {
    table_edges(w, ns, w.len() as int) + fallback_edges(w, ns, w.len() as int)
}

/// Every edge of the first `upto` words, in word order.
pub open spec fn phrase_edges(words: Seq<Word>, upto: int) -> Seq<(usize, usize)>
    decreases upto,
{
    if upto <= 0 {
        Seq::empty()
    } else {
        phrase_edges(words, upto - 1) + word_edges(
            words[upto - 1].text@,
            words[upto - 1].nodes@,
        )
    }
}

/// Every node of the first `upto` words, in word order.
pub open spec fn all_nodes(words: Seq<Word>, upto: int) -> Seq<usize>
    decreases upto,
{
    if upto <= 0 {
        Seq::empty()
    } else {
        all_nodes(words, upto - 1) + words[upto - 1].nodes@
    }
}

/// The texts of a word list, for relating them to the parsed phrase.
pub open spec fn word_texts(words: Seq<Word>) -> Seq<Seq<u8>> {
    words.map_values(|w: Word| w.text@)
}

/// The whole phrase: its words, the union of their edges, and the stable
/// graph that mirrors them for display.
pub struct Phrase {
    pub phrase_words: Vec<Word>,
    pub edges: Vec<(usize, usize)>,
    pub graph: StableGraph<(), (), petgraph::Directed, u32>,
}

impl Phrase {
    /// Well-formedness: words are well formed, nodes are never shared, the
    /// edge list is exactly what the table and fallback rules prescribe, and
    /// the display graph mirrors it.
    pub open spec fn wf(self) -> bool {
        let ws = self.phrase_words@;
        &&& forall|k: int| 0 <= k < ws.len() ==> (#[trigger] ws[k]).wf()
        &&& all_nodes(ws, ws.len() as int).no_duplicates()
        &&& self.edges@ == phrase_edges(ws, ws.len() as int)
        &&& graph_edges(self.graph) == self.edges@.to_multiset()
        &&& total_len(word_texts(ws), ws.len() as int) <= MAX_PHRASE_LEN
    }

    /// The edges as the display graph holds them; the same multiset as the
    /// phrase's own edge list.
    pub fn edge_list(&self) -> (r: Vec<(usize, usize)>)
        requires
            self.wf(),
        ensures
            r@.to_multiset() == self.edges@.to_multiset(),
    {
        graph_edge_list(&self.graph)
    }
}

proof fn lemma_concat_contains<A>(a: Seq<A>, b: Seq<A>, x: A)
    requires
        a.contains(x) || b.contains(x),
    ensures
        (a + b).contains(x),
{
    if a.contains(x) {
        let idx = choose|idx: int| 0 <= idx < a.len() && a[idx] == x;
        assert((a + b)[idx] == x);
    } else {
        let idx = choose|idx: int| 0 <= idx < b.len() && b[idx] == x;
        assert((a + b)[a.len() + idx] == x);
    }
}

proof fn lemma_nte_contains(w: Seq<u8>, ns: Seq<usize>, i: int, j: int, upto: int)
    requires
        0 <= j < upto,
        connection_row(w[i]).contains(w[j]),
    ensures
        node_table_edges(w, ns, i, upto).contains((ns[i], ns[j])),
    decreases upto,
{
    if j == upto - 1 {
        assert(node_table_edges(w, ns, i, upto).last() == (ns[i], ns[j]));
    } else {
        lemma_nte_contains(w, ns, i, j, upto - 1);
        let rest = node_table_edges(w, ns, i, upto - 1);
        let idx = choose|idx: int| 0 <= idx < rest.len() && rest[idx] == (ns[i], ns[j]);
        assert(node_table_edges(w, ns, i, upto)[idx] == (ns[i], ns[j]));
    }
}

proof fn lemma_te_contains(w: Seq<u8>, ns: Seq<usize>, i: int, upto: int, e: (usize, usize))
    requires
        0 <= i < upto,
        node_table_edges(w, ns, i, w.len() as int).contains(e),
    ensures
        table_edges(w, ns, upto).contains(e),
    decreases upto,
{
    if i == upto - 1 {
        lemma_concat_contains(
            table_edges(w, ns, upto - 1),
            node_table_edges(w, ns, i, w.len() as int),
            e,
        );
    } else {
        lemma_te_contains(w, ns, i, upto - 1, e);
        lemma_concat_contains(
            table_edges(w, ns, upto - 1),
            node_table_edges(w, ns, upto - 1, w.len() as int),
            e,
        );
    }
}

proof fn lemma_fallback_contains(w: Seq<u8>, ns: Seq<usize>, i: int, upto: int)
    requires
        0 <= i < upto,
        !has_table_link(w, i),
        w.len() >= 2,
    ensures
        fallback_edges(w, ns, upto).contains((ns[i], ns[fallback_target(w, i)])),
    decreases upto,
{
    let e = (ns[i], ns[fallback_target(w, i)]);
    if i == upto - 1 {
        assert(fallback_edges(w, ns, upto).last() == e);
    } else {
        lemma_fallback_contains(w, ns, i, upto - 1);
        let rest = fallback_edges(w, ns, upto - 1);
        let idx = choose|idx: int| 0 <= idx < rest.len() && rest[idx] == e;
        assert(fallback_edges(w, ns, upto)[idx] == e);
    }
}

/// In a word of at least two letters, every node carries at least one
/// incident edge: one the connection table gives it, in or out, or else
/// the fallback edge toward its alphabetically nearest sibling.
pub proof fn lemma_every_node_linked(w: Seq<u8>, ns: Seq<usize>, i: int)
    requires
        w.len() == ns.len(),
        w.len() >= 2,
        0 <= i < w.len(),
    ensures
        exists|e: (usize, usize)|
            #[trigger] word_edges(w, ns).contains(e) && (e.0 == ns[i] || e.1 == ns[i]),
{
    let te = table_edges(w, ns, w.len() as int);
    let fe = fallback_edges(w, ns, w.len() as int);
    if has_table_link(w, i) {
        let j = choose|j: int| 0 <= j < w.len() && #[trigger] linked_pair(w, i, j);
        if connection_row(w[i]).contains(w[j]) {
            lemma_nte_contains(w, ns, i, j, w.len() as int);
            lemma_te_contains(w, ns, i, w.len() as int, (ns[i], ns[j]));
            lemma_concat_contains(te, fe, (ns[i], ns[j]));
            assert(word_edges(w, ns).contains((ns[i], ns[j])) && ((ns[i], ns[j]).0 == ns[i]
                || (ns[i], ns[j]).1 == ns[i]));
        } else {
            lemma_nte_contains(w, ns, j, i, w.len() as int);
            lemma_te_contains(w, ns, j, w.len() as int, (ns[j], ns[i]));
            lemma_concat_contains(te, fe, (ns[j], ns[i]));
            assert(word_edges(w, ns).contains((ns[j], ns[i])) && ((ns[j], ns[i]).0 == ns[i]
                || (ns[j], ns[i]).1 == ns[i]));
        }
    } else {
        let e = (ns[i], ns[fallback_target(w, i)]);
        lemma_fallback_contains(w, ns, i, w.len() as int);
        lemma_concat_contains(te, fe, e);
        assert(word_edges(w, ns).contains(e) && (e.0 == ns[i] || e.1 == ns[i]));
    }
}

proof fn lemma_pe_contains(words: Seq<Word>, k: int, upto: int, e: (usize, usize))
    requires
        0 <= k < upto,
        word_edges(words[k].text@, words[k].nodes@).contains(e),
    ensures
        phrase_edges(words, upto).contains(e),
    decreases upto,
{
    if k == upto - 1 {
        lemma_concat_contains(
            phrase_edges(words, upto - 1),
            word_edges(words[k].text@, words[k].nodes@),
            e,
        );
    } else {
        lemma_pe_contains(words, k, upto - 1, e);
        lemma_concat_contains(
            phrase_edges(words, upto - 1),
            word_edges(words[upto - 1].text@, words[upto - 1].nodes@),
            e,
        );
    }
}

/// In a well-formed phrase, every node of every word of at least two
/// letters has an incident edge in the phrase's edge list.
pub proof fn lemma_phrase_nodes_linked(p: Phrase, k: int, i: int)
    requires
        p.wf(),
        0 <= k < p.phrase_words@.len(),
        p.phrase_words@[k].text@.len() >= 2,
        0 <= i < p.phrase_words@[k].nodes@.len(),
    ensures
        exists|e: (usize, usize)|
            #[trigger] p.edges@.contains(e) && (e.0 == p.phrase_words@[k].nodes@[i] || e.1
                == p.phrase_words@[k].nodes@[i]),
{
    let words = p.phrase_words@;
    let w = words[k].text@;
    let ns = words[k].nodes@;
    assert(words[k].wf());
    lemma_every_node_linked(w, ns, i);
    let e = choose|e: (usize, usize)|
        #[trigger] word_edges(w, ns).contains(e) && (e.0 == ns[i] || e.1 == ns[i]);
    lemma_pe_contains(words, k, words.len() as int, e);
    assert(p.edges@.contains(e) && (e.0 == ns[i] || e.1 == ns[i]));
}

proof fn lemma_concat_contains_split<A>(a: Seq<A>, b: Seq<A>, x: A)
    requires
        (a + b).contains(x),
    ensures
        a.contains(x) || b.contains(x),
{
    let c = a + b;
    let idx = choose|idx: int| 0 <= idx < c.len() && c[idx] == x;
    if idx < a.len() {
        assert(a[idx] == x);
    } else {
        assert(b[idx - a.len()] == x);
    }
}

proof fn lemma_fallback_best_range(w: Seq<u8>, i: int, upto: int)
    ensures
        fallback_best(w, i, upto) == -1 || (0 <= fallback_best(w, i, upto) < upto
            && fallback_best(w, i, upto) != i),
    decreases upto,
{
    if upto > 0 {
        lemma_fallback_best_range(w, i, upto - 1);
    }
}

proof fn lemma_fallback_best_some(w: Seq<u8>, i: int, jj: int, upto: int)
    requires
        0 <= jj < upto,
        jj != i,
    ensures
        fallback_best(w, i, upto) != -1,
    decreases upto,
{
    lemma_fallback_best_range(w, i, upto - 1);
    if upto - 1 == i {
        lemma_fallback_best_some(w, i, jj, upto - 1);
    }
}

proof fn lemma_nte_endpoints(w: Seq<u8>, ns: Seq<usize>, i: int, upto: int)
    requires
        0 <= i < ns.len(),
        upto <= ns.len(),
    ensures
        forall|e: (usize, usize)|
            #[trigger] node_table_edges(w, ns, i, upto).contains(e) ==> ns.contains(e.0)
                && ns.contains(e.1),
    decreases upto,
{
    if upto > 0 {
        lemma_nte_endpoints(w, ns, i, upto - 1);
        let rest = node_table_edges(w, ns, i, upto - 1);
        let cur = node_table_edges(w, ns, i, upto);
        assert forall|e: (usize, usize)| #[trigger] cur.contains(e) implies ns.contains(e.0)
            && ns.contains(e.1) by {
            let idx = choose|idx: int| 0 <= idx < cur.len() && cur[idx] == e;
            if idx < rest.len() {
                assert(rest.contains(rest[idx]));
            } else {
                assert(e == (ns[i], ns[upto - 1]));
                assert(ns.contains(ns[i]) && ns.contains(ns[upto - 1]));
            }
        }
    }
}

proof fn lemma_te_endpoints(w: Seq<u8>, ns: Seq<usize>, upto: int)
    requires
        upto <= ns.len(),
        w.len() == ns.len(),
    ensures
        forall|e: (usize, usize)|
            #[trigger] table_edges(w, ns, upto).contains(e) ==> ns.contains(e.0) && ns.contains(
                e.1,
            ),
    decreases upto,
{
    if upto > 0 {
        lemma_te_endpoints(w, ns, upto - 1);
        lemma_nte_endpoints(w, ns, upto - 1, w.len() as int);
        assert forall|e: (usize, usize)| #[trigger] table_edges(w, ns, upto).contains(e) implies
            ns.contains(e.0) && ns.contains(e.1) by {
            lemma_concat_contains_split(
                table_edges(w, ns, upto - 1),
                node_table_edges(w, ns, upto - 1, w.len() as int),
                e,
            );
        }
    }
}

proof fn lemma_fb_endpoints(w: Seq<u8>, ns: Seq<usize>, upto: int)
    requires
        upto <= ns.len(),
        w.len() == ns.len(),
    ensures
        forall|e: (usize, usize)|
            #[trigger] fallback_edges(w, ns, upto).contains(e) ==> ns.contains(e.0) && ns.contains(
                e.1,
            ),
    decreases upto,
{
    if upto > 0 {
        lemma_fb_endpoints(w, ns, upto - 1);
        let rest = fallback_edges(w, ns, upto - 1);
        let cur = fallback_edges(w, ns, upto);
        let i = upto - 1;
        assert forall|e: (usize, usize)| #[trigger] cur.contains(e) implies ns.contains(e.0)
            && ns.contains(e.1) by {
            let idx = choose|idx: int| 0 <= idx < cur.len() && cur[idx] == e;
            if idx < rest.len() {
                assert(rest.contains(rest[idx]));
            } else {
                let t = fallback_target(w, i);
                assert(w.len() >= 2);
                if i == 0 {
                    lemma_fallback_best_some(w, i, 1, w.len() as int);
                } else {
                    lemma_fallback_best_some(w, i, 0, w.len() as int);
                }
                lemma_fallback_best_range(w, i, w.len() as int);
                assert(0 <= t < ns.len());
                assert(e == (ns[i], ns[t]));
                assert(ns.contains(ns[i]) && ns.contains(ns[t]));
            }
        }
    }
}

proof fn lemma_pe_endpoints(words: Seq<Word>, upto: int, e: (usize, usize))
    requires
        0 <= upto <= words.len(),
        forall|k: int| 0 <= k < words.len() ==> (#[trigger] words[k]).wf(),
        phrase_edges(words, upto).contains(e),
    ensures
        exists|k: int|
            0 <= k < upto && (#[trigger] words[k].nodes@).contains(e.0) && words[k].nodes@.contains(
                e.1,
            ),
    decreases upto,
{
    let prev = phrase_edges(words, upto - 1);
    let last = word_edges(words[upto - 1].text@, words[upto - 1].nodes@);
    lemma_concat_contains_split(prev, last, e);
    if prev.contains(e) {
        lemma_pe_endpoints(words, upto - 1, e);
    } else {
        let w = words[upto - 1].text@;
        let ns = words[upto - 1].nodes@;
        lemma_te_endpoints(w, ns, w.len() as int);
        lemma_fb_endpoints(w, ns, w.len() as int);
        lemma_concat_contains_split(
            table_edges(w, ns, w.len() as int),
            fallback_edges(w, ns, w.len() as int),
            e,
        );
        assert(ns.contains(e.0) && ns.contains(e.1));
    }
}

/// Edges never cross word boundaries: both endpoints of every edge of a
/// well-formed phrase are nodes of one and the same word.
pub proof fn lemma_edges_stay_within_words(p: Phrase, e: (usize, usize))
    requires
        p.wf(),
        p.edges@.contains(e),
    ensures
        exists|k: int|
            0 <= k < p.phrase_words@.len() && (#[trigger] p.phrase_words@[k].nodes@).contains(e.0)
                && p.phrase_words@[k].nodes@.contains(e.1),
{
    lemma_pe_endpoints(p.phrase_words@, p.phrase_words@.len() as int, e);
}

/// Allocates `count` fresh nodes in the graph.
fn allocate_word_nodes(
    g: &mut StableGraph<(), (), petgraph::Directed, u32>,
    count: usize,
) -> (ns: Vec<usize>)
    requires
        graph_node_slots(*old(g)) + count <= 0xFFFF_FFFF,
    ensures
        ns@.len() == count,
        ns@.no_duplicates(),
        forall|j: int|
            0 <= j < count ==> !graph_nodes(*old(g)).contains(#[trigger] ns@[j]) && graph_nodes(
                *final(g),
            ).contains(ns@[j]),
        forall|x: usize|
            graph_nodes(*old(g)).contains(x) ==> graph_nodes(*final(g)).contains(x),
        graph_edges(*final(g)) == graph_edges(*old(g)),
        graph_edge_slots(*final(g)) == graph_edge_slots(*old(g)),
        graph_node_slots(*final(g)) <= graph_node_slots(*old(g)) + count,
{
    let mut ns: Vec<usize> = Vec::new();
    let mut t: usize = 0;
    while t < count
        invariant
            t <= count,
            ns@.len() == t,
            ns@.no_duplicates(),
            graph_node_slots(*g) <= graph_node_slots(*old(g)) + t,
            graph_node_slots(*old(g)) + count <= 0xFFFF_FFFF,
            forall|j: int|
                0 <= j < t ==> !graph_nodes(*old(g)).contains(#[trigger] ns@[j]) && graph_nodes(
                    *g,
                ).contains(ns@[j]),
            forall|x: usize| graph_nodes(*old(g)).contains(x) ==> graph_nodes(*g).contains(x),
            graph_edges(*g) == graph_edges(*old(g)),
            graph_edge_slots(*g) == graph_edge_slots(*old(g)),
        decreases count - t,
    {
        let ghost before = ns@;
        let ghost nodes_before = graph_nodes(*g);
        let id = graph_add_node(g);
        proof {
            assert forall|j: int| 0 <= j < before.len() implies #[trigger] before[j] != id by {
                assert(nodes_before.contains(before[j]));
            }
            assert(before.push(id).no_duplicates());
        }
        ns.push(id);
        t += 1;
    }
    ns
}

/// A byte-for-byte copy of a word's text.
fn copy_bytes(src: &Vec<u8>) -> (r: Vec<u8>)
    ensures
        r@ == src@,
{
    let mut r: Vec<u8> = Vec::new();
    let mut i: usize = 0;
    while i < src.len()
        invariant
            i <= src@.len(),
            r@ == src@.take(i as int),
        decreases src@.len() - i,
    {
        r.push(src[i]);
        proof {
            assert(src@.take(i as int + 1) =~= src@.take(i as int).push(src@[i as int]));
        }
        i += 1;
    }
    assert(src@.take(i as int) =~= src@);
    r
}

/// Adds every edge of one word to the graph and the edge list: first the
/// table step for each node, then the fallback rule for the nodes the table
/// left without any link.
fn add_word_edges(
    g: &mut StableGraph<(), (), petgraph::Directed, u32>,
    edges: &mut Vec<(usize, usize)>,
    text: &Vec<u8>,
    nodes: &Vec<usize>,
)
    requires
        text@.len() == nodes@.len(),
        forall|j: int|
            0 <= j < nodes@.len() ==> graph_nodes(*old(g)).contains(#[trigger] nodes@[j]),
        graph_edges(*old(g)) == old(edges)@.to_multiset(),
        graph_edge_slots(*old(g)) <= old(edges)@.len(),
        old(edges)@.len() + text@.len() * text@.len() + text@.len() < 0xFFFF_FFFF,
    ensures
        final(edges)@ == old(edges)@ + word_edges(text@, nodes@),
        final(edges)@.len() <= old(edges)@.len() + text@.len() * text@.len() + text@.len(),
        graph_edges(*final(g)) == final(edges)@.to_multiset(),
        graph_edge_slots(*final(g)) <= final(edges)@.len(),
        graph_nodes(*final(g)) == graph_nodes(*old(g)),
        graph_node_slots(*final(g)) == graph_node_slots(*old(g)),
{
    let m = text.len();
    let ghost w = text@;
    let ghost ns = nodes@;
    let ghost base = old(edges)@;

    let mut i: usize = 0;
    while i < m
        invariant
            i <= m,
            m == w.len(),
            m == ns.len(),
            text@ == w,
            nodes@ == ns,
            base.len() + (m as int) * (m as int) + (m as int) < 0xFFFF_FFFF,
            forall|j: int| 0 <= j < ns.len() ==> graph_nodes(*g).contains(#[trigger] ns[j]),
            edges@ == base + table_edges(w, ns, i as int),
            edges@.len() <= base.len() + (i as int) * (m as int),
            graph_edges(*g) == edges@.to_multiset(),
            graph_edge_slots(*g) <= edges@.len(),
            graph_nodes(*g) == graph_nodes(*old(g)),
            graph_node_slots(*g) == graph_node_slots(*old(g)),
        decreases m - i,
    {
        let row = connections(text[i]);
        let mut j: usize = 0;
        while j < m
            invariant
                i < m,
                j <= m,
                m == w.len(),
                m == ns.len(),
                text@ == w,
                nodes@ == ns,
                row@ == connection_row(w[i as int]),
                base.len() + (m as int) * (m as int) + (m as int) < 0xFFFF_FFFF,
                forall|j2: int| 0 <= j2 < ns.len() ==> graph_nodes(*g).contains(#[trigger] ns[j2]),
                edges@ == base + table_edges(w, ns, i as int) + node_table_edges(
                    w,
                    ns,
                    i as int,
                    j as int,
                ),
                edges@.len() <= base.len() + (i as int) * (m as int) + (j as int),
                graph_edges(*g) == edges@.to_multiset(),
                graph_edge_slots(*g) <= edges@.len(),
                graph_nodes(*g) == graph_nodes(*old(g)),
                graph_node_slots(*g) == graph_node_slots(*old(g)),
            decreases m - j,
        {
            if row_contains(&row, text[j]) {
                proof {
                    assert((i as int) * (m as int) + (j as int) < (m as int) * (m as int) + (
                    m as int)) by (nonlinear_arith)
                        requires
                            0 <= (i as int) < (m as int),
                            0 <= (j as int) < (m as int),
                    ;
                }
                graph_add_edge(g, nodes[i], nodes[j]);
                edges.push((nodes[i], nodes[j]));
            }
            proof {
                assert(node_table_edges(w, ns, i as int, j as int + 1) == if connection_row(
                    w[i as int],
                ).contains(w[j as int]) {
                    node_table_edges(w, ns, i as int, j as int).push(
                        (ns[i as int], ns[j as int]),
                    )
                } else {
                    node_table_edges(w, ns, i as int, j as int)
                });
                assert(base + table_edges(w, ns, i as int) + node_table_edges(
                    w,
                    ns,
                    i as int,
                    j as int,
                ).push((ns[i as int], ns[j as int])) =~= (base + table_edges(w, ns, i as int)
                    + node_table_edges(w, ns, i as int, j as int)).push(
                    (ns[i as int], ns[j as int]),
                ));
            }
            j += 1;
        }
        proof {
            assert(table_edges(w, ns, i as int + 1) == table_edges(w, ns, i as int)
                + node_table_edges(w, ns, i as int, m as int));
            assert(base + table_edges(w, ns, i as int + 1) =~= base + table_edges(w, ns, i as int)
                + node_table_edges(w, ns, i as int, m as int));
            assert((i as int + 1) * (m as int) == (i as int) * (m as int) + (
            m as int)) by (nonlinear_arith);
        }
        i += 1;
    }

    let ghost base2 = edges@;
    proof {
        assert((m as int) * (m as int) == (m as int) * (m as int)) by (nonlinear_arith);
    }

    let mut i: usize = 0;
    while i < m
        invariant
            i <= m,
            m == w.len(),
            m == ns.len(),
            text@ == w,
            nodes@ == ns,
            base2 == base + table_edges(w, ns, m as int),
            base2.len() <= base.len() + (m as int) * (m as int),
            base.len() + (m as int) * (m as int) + (m as int) < 0xFFFF_FFFF,
            forall|j: int| 0 <= j < ns.len() ==> graph_nodes(*g).contains(#[trigger] ns[j]),
            edges@ == base2 + fallback_edges(w, ns, i as int),
            edges@.len() <= base2.len() + (i as int),
            graph_edges(*g) == edges@.to_multiset(),
            graph_edge_slots(*g) <= edges@.len(),
            graph_nodes(*g) == graph_nodes(*old(g)),
            graph_node_slots(*g) == graph_node_slots(*old(g)),
        decreases m - i,
    {
        let wi = text[i];
        let row_i = connections(wi);
        let mut linked = false;
        let mut j: usize = 0;
        while j < m
            invariant
                i < m,
                j <= m,
                m == w.len(),
                text@ == w,
                wi == w[i as int],
                row_i@ == connection_row(w[i as int]),
                linked == exists|j2: int| 0 <= j2 < j && #[trigger] linked_pair(w, i as int, j2),
            decreases m - j,
        {
            let wj = text[j];
            let row_j = connections(wj);
            if row_contains(&row_i, wj) || row_contains(&row_j, wi) {
                proof {
                    assert(linked_pair(w, i as int, j as int));
                }
                linked = true;
            }
            j += 1;
        }
        assert(linked == has_table_link(w, i as int));
        if !linked && m >= 2 {
            let mut best: usize = m;
            let mut best_d: u8 = 255;
            let mut j2: usize = 0;
            while j2 < m
                invariant
                    i < m,
                    j2 <= m,
                    m == w.len(),
                    text@ == w,
                    best == m ==> fallback_best(w, i as int, j2 as int) == -1,
                    best != m ==> best < m && best != i && fallback_best(w, i as int, j2 as int)
                        == best as int && best_d as int == letter_distance(
                        w[i as int],
                        w[best as int],
                    ),
                    (j2 as int > 1 || (j2 as int > 0 && i != 0)) ==> best != m,
                decreases m - j2,
            {
                if j2 != i {
                    let a = text[i];
                    let b = text[j2];
                    let d: u8 = if a >= b {
                        a - b
                    } else {
                        b - a
                    };
                    if best == m {
                        best = j2;
                        best_d = d;
                    } else if d < best_d {
                        best = j2;
                        best_d = d;
                    }
                }
                j2 += 1;
            }
            assert(best != m);
            assert(fallback_target(w, i as int) == best as int);
            graph_add_edge(g, nodes[i], nodes[best]);
            edges.push((nodes[i], nodes[best]));
            proof {
                assert(fallback_edges(w, ns, i as int + 1) == fallback_edges(
                    w,
                    ns,
                    i as int,
                ).push((ns[i as int], ns[best as int])));
                assert(base2 + fallback_edges(w, ns, i as int).push(
                    (ns[i as int], ns[best as int]),
                ) =~= (base2 + fallback_edges(w, ns, i as int)).push(
                    (ns[i as int], ns[best as int]),
                ));
            }
        } else {
            proof {
                assert(fallback_edges(w, ns, i as int + 1) == fallback_edges(w, ns, i as int));
            }
        }
        i += 1;
    }
    proof {
        assert(edges@ =~= base + word_edges(w, ns));
    }
}

proof fn lemma_words_prefix_agree(ws1: Seq<Word>, ws2: Seq<Word>, upto: int)
    requires
        0 <= upto <= ws1.len(),
        upto <= ws2.len(),
        forall|k: int| 0 <= k < upto ==> #[trigger] ws1[k] == ws2[k],
    ensures
        all_nodes(ws1, upto) == all_nodes(ws2, upto),
        phrase_edges(ws1, upto) == phrase_edges(ws2, upto),
        total_len(word_texts(ws1), upto) == total_len(word_texts(ws2), upto),
    decreases upto,
{
    if upto > 0 {
        lemma_words_prefix_agree(ws1, ws2, upto - 1);
    }
}

proof fn lemma_concat_no_dup(a: Seq<usize>, b: Seq<usize>)
    requires
        a.no_duplicates(),
        b.no_duplicates(),
        forall|x: usize| b.contains(x) ==> !a.contains(x),
    ensures
        (a + b).no_duplicates(),
{
    let c = a + b;
    assert forall|p: int, q: int|
        0 <= p < c.len() && 0 <= q < c.len() && p != q implies c[p] != c[q] by {
        if p < a.len() && q >= a.len() {
            assert(b.contains(b[q - a.len()]));
            assert(a.contains(a[p]));
        } else if p >= a.len() && q < a.len() {
            assert(b.contains(b[p - a.len()]));
            assert(a.contains(a[q]));
        }
    }
}

impl Phrase {
    /// Builds the whole phrase graph from raw text: parse into words, one
    /// node per letter, the table's edges, then the fallback rule.
    pub fn new(phrase: &str) -> (p: Phrase)
        requires
            phrase.spec_bytes().len() <= MAX_PHRASE_LEN,
        ensures
            p.wf(),
            word_texts(p.phrase_words@) == phrase_words(phrase.spec_bytes()),
    {
        let bytes: &[u8] = phrase.as_bytes();
        let ghost pw = phrase_words(bytes@);
        proof {
            lemma_phrase_words_wellformed(bytes@);
            lemma_phrase_words_total(bytes@);
        }
        let words_text = tokenize(bytes);
        let mut g = graph_new();
        let mut words: Vec<Word> = Vec::new();
        let mut edges: Vec<(usize, usize)> = Vec::new();
        let n = words_text.len();
        proof {
            assert(pw.len() == n);
        }
        let mut k: usize = 0;
        while k < n
            invariant
                k <= n,
                n == words_text@.len(),
                words_text.deep_view() == pw,
                pw.len() == n,
                forall|k2: int| 0 <= k2 < pw.len() ==> wf_word(#[trigger] pw[k2]),
                total_len(pw, pw.len() as int) <= MAX_PHRASE_LEN,
                words@.len() == k,
                forall|k2: int| 0 <= k2 < k ==> (#[trigger] words@[k2]).text@ == pw[k2],
                forall|k2: int| 0 <= k2 < k ==> (#[trigger] words@[k2]).wf(),
                all_nodes(words@, k as int).no_duplicates(),
                all_nodes(words@, k as int).len() == total_len(pw, k as int),
                forall|x: usize|
                    #[trigger] all_nodes(words@, k as int).contains(x) ==> graph_nodes(
                        g,
                    ).contains(x),
                graph_node_slots(g) <= total_len(pw, k as int),
                edges@ == phrase_edges(words@, k as int),
                graph_edges(g) == edges@.to_multiset(),
                graph_edge_slots(g) <= edges@.len(),
                edges@.len() <= total_len(pw, k as int) * total_len(pw, k as int) + total_len(
                    pw,
                    k as int,
                ),
            decreases n - k,
        {
            let text = copy_bytes(&words_text[k]);
            proof {
                assert(words_text.deep_view()[k as int] == words_text@[k as int].deep_view());
                assert(words_text@[k as int].deep_view() =~= words_text@[k as int]@);
                assert(text@ == pw[k as int]);
            }
            let ghost tl = total_len(pw, k as int);
            let m = text.len();
            proof {
                assert(total_len(pw, k as int + 1) == tl + m);
                lemma_total_len_mono(pw, k as int + 1, pw.len() as int);
                assert(tl + m <= MAX_PHRASE_LEN);
            }
            let ghost g0_nodes = graph_nodes(g);
            let ns = allocate_word_nodes(&mut g, m);
            proof {
                let t1 = tl;
                let mi = m as int;
                assert(edges@.len() + mi * mi + mi < 0xFFFF_FFFF) by (nonlinear_arith)
                    requires
                        edges@.len() <= t1 * t1 + t1,
                        0 <= t1,
                        0 <= mi,
                        t1 + mi <= 32768,
                ;
            }
            let ghost old_edges = edges@;
            add_word_edges(&mut g, &mut edges, &text, &ns);
            let ghost old_words = words@;
            let ghost old_all = all_nodes(old_words, k as int);
            words.push(Word::new(text, ns));
            k += 1;
            proof {
                let ws2 = words@;
                let ki = k as int;
                lemma_words_prefix_agree(old_words, ws2, ki - 1);
                assert(ws2[ki - 1].text@ == pw[ki - 1]);
                assert(ws2[ki - 1].wf());
                assert(all_nodes(ws2, ki) == all_nodes(ws2, ki - 1) + ws2[ki - 1].nodes@);
                assert forall|x: usize| ns@.contains(x) implies !old_all.contains(x) by {
                    let j = choose|j: int| 0 <= j < ns@.len() && ns@[j] == x;
                    assert(!g0_nodes.contains(ns@[j]));
                }
                lemma_concat_no_dup(old_all, ns@);
                assert(all_nodes(ws2, ki).no_duplicates());
                assert forall|x: usize| #[trigger] all_nodes(ws2, ki).contains(x) implies
                    graph_nodes(g).contains(x) by {
                    let all = all_nodes(ws2, ki);
                    let idx = choose|idx: int| 0 <= idx < all.len() && all[idx] == x;
                    if idx < old_all.len() {
                        assert(old_all.contains(old_all[idx]));
                        assert(g0_nodes.contains(x));
                    } else {
                        assert(ns@[idx - old_all.len()] == x);
                    }
                }
                assert(phrase_edges(ws2, ki) == phrase_edges(ws2, ki - 1) + word_edges(
                    ws2[ki - 1].text@,
                    ws2[ki - 1].nodes@,
                ));
                assert(edges@ == phrase_edges(ws2, ki));
                let t1 = tl;
                let mi = m as int;
                assert(old_edges.len() + mi * mi + mi <= (t1 + mi) * (t1 + mi) + (t1
                    + mi)) by (nonlinear_arith)
                    requires
                        old_edges.len() <= t1 * t1 + t1,
                        0 <= t1,
                        0 <= mi,
                ;
                assert(total_len(pw, ki) == t1 + mi);
            }
        }
        let p = Phrase { phrase_words: words, edges, graph: g };
        proof {
            assert(word_texts(p.phrase_words@) =~~= pw);
            assert(total_len(word_texts(p.phrase_words@), n as int) == total_len(pw, n as int));
        }
        p
    }
}

} // verus!
