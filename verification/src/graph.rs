//! The word-chain graph: an edge joins a word to every different word
//! whose first letter equals its last letter.

use vstd::prelude::*;
use crate::words::{word_list_has, chains, lemma_word_list_push};

verus! {

/// Some slot of the adjacency row holds the node index `j`.
pub open spec fn row_has(row: Seq<usize>, j: int) -> bool {
    exists|t: int| 0 <= t < row.len() && (#[trigger] row[t]) == j
}

/// The chain graph over the valid words.  `nodes` lists each distinct word
/// once; `edges[x]` lists the indices of the words reachable from word `x`.
pub struct Graph {
    pub nodes: Vec<String>,
    pub edges: Vec<Vec<usize>>,
}

impl Graph {
    pub open spec fn wf(self) -> bool {
        &&& self.edges@.len() == self.nodes@.len()
        &&& (forall|a: int, b: int|
            0 <= a < b < self.nodes@.len() ==> (#[trigger] self.nodes@[a])@ != (
            #[trigger] self.nodes@[b])@)
        &&& (forall|a: int| 0 <= a < self.nodes@.len() ==> (#[trigger] self.nodes@[a])@.len() > 0)
        &&& (forall|a: int, t: int|
            0 <= a < self.edges@.len() && 0 <= t < self.edges@[a]@.len()
                ==> (#[trigger] self.edges@[a]@[t]) < self.nodes@.len())
        &&& (forall|a: int, j: int|
            0 <= a < self.nodes@.len() ==> (#[trigger] row_has(self.edges@[a]@, j) <==> (0 <= j
                < self.nodes@.len() && chains(self.nodes@[a]@, self.nodes@[j]@))))
    }

    /// The word `w` is a node of the graph.
    pub open spec fn node_has(self, w: Seq<char>) -> bool {
        word_list_has(self.nodes@, w)
    }

    /// The graph has a directed edge from word `a` to word `b`.
    pub open spec fn has_edge(self, a: Seq<char>, b: Seq<char>) -> bool {
        exists|x: int, t: int|
            0 <= x < self.nodes@.len() && 0 <= t < self.edges@[x]@.len() && self.nodes@[x]@ == a
                && self.nodes@[(#[trigger] self.edges@[x]@[t]) as int]@ == b
    }
}

/// The last character of a word.
pub fn last_char(w: &String) -> (c: char)
    requires
        w@.len() > 0,
    ensures
        c == w@[w@.len() - 1],
{
    let n = w.as_str().unicode_len();
    w.as_str().get_char(n - 1)
}

/// The first character of a word.
pub fn first_char(w: &String) -> (c: char)
    requires
        w@.len() > 0,
    ensures
        c == w@[0],
{
    w.as_str().get_char(0)
}

/// Builds the chain graph of the given words: each distinct word becomes a
/// node, and there is an edge from `a` to `b` exactly when both are nodes,
/// they differ, and the last letter of `a` is the first letter of `b`.
#[verifier::loop_isolation(false)]
pub fn generate_graph(valid_words: &Vec<String>) -> (g: Graph)
    requires
        forall|k: int| 0 <= k < valid_words@.len() ==> (#[trigger] valid_words@[k])@.len() > 0,
    ensures
        g.wf(),
        forall|w: Seq<char>| #[trigger] g.node_has(w) <==> word_list_has(valid_words@, w),
        forall|a: Seq<char>, b: Seq<char>|
            #[trigger] g.has_edge(a, b) <==> (g.node_has(a) && g.node_has(b) && chains(a, b)),
{
    let mut nodes: Vec<String> = Vec::new();
    let nw = valid_words.len();
    for k in 0..nw
        invariant
            forall|a: int, b: int|
                0 <= a < b < nodes@.len() ==> (#[trigger] nodes@[a])@ != (#[trigger] nodes@[b])@,
            forall|a: int| 0 <= a < nodes@.len() ==> (#[trigger] nodes@[a])@.len() > 0,
            forall|w: Seq<char>|
                #[trigger] word_list_has(nodes@, w) <==> word_list_has(valid_words@.subrange(
                    0, k as int), w),
    {
        let w = &valid_words[k];
        let mut dup = false;
        let m = nodes.len();
        for t in 0..m
            invariant
                m == nodes@.len(),
                dup ==> word_list_has(nodes@, w@),
                !dup ==> forall|x: int| 0 <= x < t ==> (#[trigger] nodes@[x])@ != w@,
        {
            if nodes[t].eq(w) {
                dup = true;
                proof {
                    assert((#[trigger] nodes@[t as int])@ == w@);
                }
            }
        }
        let ghost pre = nodes@;
        if !dup {
            nodes.push(w.clone());
        }
        proof {
            lemma_word_list_push(pre, valid_words@[k as int]);
            assert(valid_words@.subrange(0, k + 1 as int) =~= valid_words@.subrange(0,
                k as int).push(valid_words@[k as int]));
            crate::words::lemma_word_list_push(valid_words@.subrange(0, k as int),
                valid_words@[k as int]);
            if dup {
                assert forall|w2: Seq<char>|
                    #[trigger] word_list_has(nodes@, w2) <==> word_list_has(
                        valid_words@.subrange(0, k + 1 as int), w2) by {}
            }
        }
    }
    proof {
        assert(valid_words@.subrange(0, nw as int) =~= valid_words@);
    }
    let n = nodes.len();
    let mut edges: Vec<Vec<usize>> = Vec::new();
    for a in 0..n
        invariant
            n == nodes@.len(),
            edges@.len() == a,
            forall|x: int, t: int|
                0 <= x < a && 0 <= t < edges@[x]@.len() ==> (#[trigger] edges@[x]@[t]) < n,
            forall|x: int, j: int|
                0 <= x < a ==> (#[trigger] row_has(edges@[x]@, j) <==> (0 <= j < n && chains(
                    nodes@[x]@, nodes@[j]@))),
    {
        let mut row: Vec<usize> = Vec::new();
        let ca = last_char(&nodes[a]);
        for j in 0..n
            invariant
                n == nodes@.len(),
                ca == nodes@[a as int]@[nodes@[a as int]@.len() - 1],
                forall|t: int| 0 <= t < row@.len() ==> (#[trigger] row@[t]) < n,
                forall|jj: int|
                    #[trigger] row_has(row@, jj) <==> (0 <= jj < j && chains(nodes@[a as int]@,
                        nodes@[jj]@)),
        {
            let ghost prerow = row@;
            if a != j {
                let cj = first_char(&nodes[j]);
                if ca == cj {
                    row.push(j);
                    proof {
                        assert(nodes@[a as int]@ != nodes@[j as int]@);
                        assert(chains(nodes@[a as int]@, nodes@[j as int]@));
                    }
                }
            }
            proof {
                assert forall|jj: int|
                    #[trigger] row_has(row@, jj) <==> (0 <= jj < j + 1 && chains(
                        nodes@[a as int]@, nodes@[jj]@)) by {
                    if row_has(row@, jj) {
                        let t = choose|t: int| 0 <= t < row@.len() && (#[trigger] row@[t]) == jj;
                        if t < prerow.len() {
                            assert(prerow[t] == jj);
                            assert(row_has(prerow, jj));
                        }
                    }
                    if 0 <= jj < j + 1 && chains(nodes@[a as int]@, nodes@[jj]@) {
                        if jj < j {
                            assert(row_has(prerow, jj));
                            let t = choose|t: int|
                                0 <= t < prerow.len() && (#[trigger] prerow[t]) == jj;
                            assert(row@[t] == jj);
                            assert(row_has(row@, jj));
                        } else {
                            assert(jj == j);
                            assert(nodes@[a as int]@ != nodes@[j as int]@);
                            assert(a != j);
                            assert(row@[row@.len() - 1] == jj);
                            assert(row_has(row@, jj));
                        }
                    }
                }
            }
        }
        edges.push(row);
    }
    let g = Graph { nodes, edges };
    proof {
        assert forall|a: Seq<char>, b: Seq<char>|
            #[trigger] g.has_edge(a, b) <==> (g.node_has(a) && g.node_has(b) && chains(a, b)) by {
            if g.has_edge(a, b) {
                let (x, t) = choose|x: int, t: int|
                    0 <= x < g.nodes@.len() && 0 <= t < g.edges@[x]@.len() && g.nodes@[x]@ == a
                        && g.nodes@[(#[trigger] g.edges@[x]@[t]) as int]@ == b;
                let j = g.edges@[x]@[t] as int;
                assert(row_has(g.edges@[x]@, j));
                assert(chains(g.nodes@[x]@, g.nodes@[j]@));
                assert(word_list_has(g.nodes@, a));
                assert(word_list_has(g.nodes@, b));
            }
            if g.node_has(a) && g.node_has(b) && chains(a, b) {
                let x = choose|x: int| 0 <= x < g.nodes@.len() && (#[trigger] g.nodes@[x])@ == a;
                let j = choose|j: int| 0 <= j < g.nodes@.len() && (#[trigger] g.nodes@[j])@ == b;
                assert(row_has(g.edges@[x]@, j));
                let t = choose|t: int|
                    0 <= t < g.edges@[x]@.len() && (#[trigger] g.edges@[x]@[t]) == j;
                assert(0 <= x < g.nodes@.len() && 0 <= t < g.edges@[x]@.len() && g.nodes@[x]@ == a
                    && g.nodes@[(g.edges@[x]@[t]) as int]@ == b);
                assert(g.has_edge(a, b));
            }
        }
    }
    g
}

} // verus!
