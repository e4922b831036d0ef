//! Enumeration of word chains in the graph and the solution filter.

use vstd::prelude::*;
use crate::graph::Graph;
use crate::letterbox::add_distinct;
use crate::words::{words_view, path_list_has, path_letters, lemma_path_list_split,
    lemma_path_list_push};

verus! {

/// Once at least this many two-word solutions exist, the longer and far
/// more expensive three-word search is skipped.
pub const SOLUTION_THRESHOLD: usize = 50;

/// `p` is a walk in the graph: every word is a node and consecutive words
/// are joined by an edge.
pub open spec fn walk_ok(g: Graph, p: Seq<Seq<char>>) -> bool {
    &&& (forall|k: int| 0 <= k < p.len() ==> g.node_has(#[trigger] p[k]))
    &&& (forall|k: int| 0 <= k < p.len() - 1 ==> g.has_edge(#[trigger] p[k], p[k + 1]))
}

/// `p` is a solution of the requested chain length: a walk of exactly
/// `len` words whose letters cover exactly twelve distinct characters.
pub open spec fn is_solution(g: Graph, p: Seq<Seq<char>>, len: int) -> bool {
    p.len() == len && walk_ok(g, p) && path_letters(p).len() == 12
}

/// The number of two-word entries of a solution list.
pub open spec fn two_word_count(sols: Seq<Vec<String>>) -> int
    decreases sols.len(),
{
    if sols.len() == 0 {
        0
    } else {
        two_word_count(sols.drop_last()) + if sols.last()@.len() == 2 {
            1int
        } else {
            0int
        }
    }
}

/// Whether the combined letters of the words of `path` number exactly
/// twelve, the full letter count of a puzzle frame.
#[verifier::loop_isolation(false)]
pub fn is_valid_solution(path: &Vec<String>) -> (r: bool)
    ensures
        r == (path_letters(words_view(path@)).len() == 12),
{
    let mut seen: Vec<char> = Vec::new();
    let n = path.len();
    for k in 0..n
        invariant
            seen@.no_duplicates(),
            seen@.to_set() == letters_upto(path@, k as int),
    {
        let cv = crate::letterbox::chars_of(path[k].as_str());
        add_distinct(&mut seen, &cv);
    }
    proof {
        lemma_letters_upto(path@, n as int);
        assert forall|c: char|
            letters_upto(path@, n as int).contains(c) <==> path_letters(words_view(
                path@)).contains(c) by {
            if path_letters(words_view(path@)).contains(c) {
                let kk = choose|kk: int|
                    0 <= kk < words_view(path@).len() && (#[trigger] words_view(path@)[
                        kk]).contains(c);
                assert(path@[kk]@.contains(c));
            }
            if letters_upto(path@, n as int).contains(c) {
                let kk = choose|kk: int| 0 <= kk < n && (#[trigger] path@[kk])@.contains(c);
                assert(words_view(path@)[kk].contains(c));
            }
        }
        assert(letters_upto(path@, n as int) =~= path_letters(words_view(path@)));
        seen@.unique_seq_to_set();
    }
    seen.len() == 12
}

/// The letters of the first `k` words of the list.
pub open spec fn letters_upto(ws: Seq<String>, k: int) -> Set<char>
    decreases k,
{
    if k <= 0 {
        Set::empty()
    } else {
        letters_upto(ws, k - 1).union(ws[k - 1]@.to_set())
    }
}

/// A character lies in `letters_upto` exactly when one of the first `k`
/// words uses it.
proof fn lemma_letters_upto(ws: Seq<String>, k: int)
    requires
        0 <= k <= ws.len(),
    ensures
        forall|c: char|
            #[trigger] letters_upto(ws, k).contains(c) <==> (exists|kk: int|
                0 <= kk < k && (#[trigger] ws[kk])@.contains(c)),
    decreases k,
{
    if k > 0 {
        lemma_letters_upto(ws, k - 1);
        assert forall|c: char|
            #[trigger] letters_upto(ws, k).contains(c) <==> (exists|kk: int|
                0 <= kk < k && (#[trigger] ws[kk])@.contains(c)) by {
            if letters_upto(ws, k).contains(c) {
                if letters_upto(ws, k - 1).contains(c) {
                    let kk = choose|kk: int| 0 <= kk < k - 1 && (#[trigger] ws[kk])@.contains(c);
                    assert(0 <= kk < k && ws[kk]@.contains(c));
                } else {
                    assert(ws[k - 1]@.to_set().contains(c));
                    assert(ws[k - 1]@.contains(c));
                }
            }
            if exists|kk: int| 0 <= kk < k && (#[trigger] ws[kk])@.contains(c) {
                let kk = choose|kk: int| 0 <= kk < k && (#[trigger] ws[kk])@.contains(c);
                if kk < k - 1 {
                    assert(letters_upto(ws, k - 1).contains(c));
                } else {
                    assert(ws[k - 1]@.to_set().contains(c));
                }
            }
        }
    }
}

/// All directed walks of `max_i - i + 1` words that start at
/// `starting_word`, found by depth-bounded backtracking.
#[verifier::loop_isolation(false)]
pub fn generate_paths(adj: &Graph, starting_word: &String, i: usize, max_i: usize) -> (paths: Vec<
    Vec<String>>)
    requires
        adj.wf(),
        adj.node_has(starting_word@),
        1 <= max_i,
        i <= max_i,
    ensures
        forall|p: Seq<Seq<char>>|
            #[trigger] path_list_has(paths@, p) <==> (p.len() == max_i - i + 1 && p[0]
                == starting_word@ && walk_ok(*adj, p)),
    decreases max_i - i,
{
    let ghost target_len = max_i - i + 1;
    if i == max_i {
        let mut single: Vec<String> = Vec::new();
        single.push(starting_word.clone());
        let mut paths: Vec<Vec<String>> = Vec::new();
        paths.push(single);
        proof {
            assert(words_view(paths@[0]@) =~= seq![starting_word@]);
            assert forall|p: Seq<Seq<char>>|
                #[trigger] path_list_has(paths@, p) <==> (p.len() == target_len && p[0]
                    == starting_word@ && walk_ok(*adj, p)) by {
                if path_list_has(paths@, p) {
                    let k = choose|k: int|
                        0 <= k < paths@.len() && words_view((#[trigger] paths@[k])@) == p;
                    assert(k == 0);
                }
                if p.len() == target_len && p[0] == starting_word@ && walk_ok(*adj, p) {
                    assert(p =~= seq![starting_word@]);
                    assert(path_list_has(paths@, p));
                }
            }
        }
        paths
    } else {
        // locate the starting word among the nodes
        let n = adj.nodes.len();
        let mut idx: usize = 0;
        let mut found = false;
        while idx < n && !found
            invariant
                idx <= n,
                !found ==> forall|m: int| 0 <= m < idx ==> (#[trigger] adj.nodes@[m])@
                    != starting_word@,
                found ==> idx < n && adj.nodes@[idx as int]@ == starting_word@,
            decreases n - idx + (if found { 0int } else { 1int }),
        {
            if adj.nodes[idx].eq(starting_word) {
                found = true;
            } else {
                idx += 1;
            }
        }
        proof {
            if !found {
                let m = choose|m: int|
                    0 <= m < adj.nodes@.len() && (#[trigger] adj.nodes@[m])@ == starting_word@;
                assert(false);
            }
        }
        let row_len = adj.edges[idx].len();
        let mut paths: Vec<Vec<String>> = Vec::new();
        for t in 0..row_len
            invariant
                found,
                idx < n,
                row_len == adj.edges@[idx as int]@.len(),
                forall|p: Seq<Seq<char>>|
                    #[trigger] path_list_has(paths@, p) <==> (p.len() == target_len && p[0]
                        == starting_word@ && walk_ok(*adj, p) && exists|tt: int|
                        0 <= tt < t && p[1] == adj.nodes@[(
                        #[trigger] adj.edges@[idx as int]@[tt]) as int]@),
        {
            let j = adj.edges[idx][t];
            let neighbor = &adj.nodes[j];
            let sub = generate_paths(adj, neighbor, i + 1, max_i);
            let ghost pre_outer = paths@;
            for q in 0..sub.len()
                invariant
                    forall|p: Seq<Seq<char>>|
                        #[trigger] path_list_has(paths@, p) <==> (path_list_has(pre_outer, p) || (
                        exists|qq: int|
                            0 <= qq < q && p == seq![starting_word@] + words_view((
                            #[trigger] sub@[qq])@))),
            {
                let mut path: Vec<String> = Vec::new();
                path.push(starting_word.clone());
                let mut rest = sub[q].clone();
                proof {
                    assert forall|z: int| 0 <= z < rest@.len() implies (#[trigger] rest@[z])@
                        == sub@[q as int]@[z]@ by {}
                }
                let ghost restv = rest@;
                path.append(&mut rest);
                let ghost pv = path@;
                let ghost prepaths = paths@;
                paths.push(path);
                proof {
                    lemma_path_list_push(prepaths, path);
                    assert(words_view(pv) =~= seq![starting_word@] + words_view(sub@[q as int]@))
                        by {
                        assert forall|z: int|
                            0 <= z < pv.len() implies words_view(pv)[z] == (seq![starting_word@]
                                + words_view(sub@[q as int]@))[z] by {
                            if z > 0 {
                                assert(pv[z] == restv[z - 1]);
                                assert(restv[z - 1]@ == sub@[q as int]@[z - 1]@);
                            }
                        }
                    }
                    assert forall|p: Seq<Seq<char>>|
                        #[trigger] path_list_has(paths@, p) <==> (path_list_has(pre_outer, p) || (
                        exists|qq: int|
                            0 <= qq < q + 1 && p == seq![starting_word@] + words_view((
                            #[trigger] sub@[qq])@))) by {
                        if path_list_has(paths@, p) && !path_list_has(prepaths, p) {
                            assert(p == words_view(pv));
                            assert(p == seq![starting_word@] + words_view(sub@[q as int]@));
                        }
                        if exists|qq: int|
                            0 <= qq < q + 1 && p == seq![starting_word@] + words_view((
                            #[trigger] sub@[qq])@) {
                            let qq = choose|qq: int|
                                0 <= qq < q + 1 && p == seq![starting_word@] + words_view((
                                #[trigger] sub@[qq])@);
                            if qq == q {
                                assert(p == words_view(pv));
                                assert(path_list_has(paths@, p));
                            } else {
                                assert(path_list_has(prepaths, p));
                            }
                        }
                    }
                }
            }
            proof {
                let jj = j as int;
                let tt0 = t as int;
                assert(adj.has_edge(starting_word@, adj.nodes@[jj]@)) by {
                    assert(0 <= idx < adj.nodes@.len() && 0 <= tt0 < adj.edges@[idx as int]@.len()
                        && adj.nodes@[idx as int]@ == starting_word@ && adj.nodes@[(
                    #[trigger] adj.edges@[idx as int]@[tt0]) as int]@ == adj.nodes@[jj]@);
                }
                assert forall|p: Seq<Seq<char>>|
                    #[trigger] path_list_has(paths@, p) <==> (p.len() == target_len && p[0]
                        == starting_word@ && walk_ok(*adj, p) && exists|tt: int|
                        0 <= tt < t + 1 && p[1] == adj.nodes@[(
                        #[trigger] adj.edges@[idx as int]@[tt]) as int]@) by {
                    if path_list_has(paths@, p) && !path_list_has(pre_outer, p) {
                        let qq = choose|qq: int|
                            0 <= qq < sub@.len() && p == seq![starting_word@] + words_view((
                            #[trigger] sub@[qq])@);
                        let x = words_view(sub@[qq]@);
                        assert(path_list_has(sub@, x));
                        assert(x.len() == max_i - (i + 1) + 1 && x[0] == neighbor@ && walk_ok(
                            *adj, x));
                        assert(p.len() == target_len);
                        assert(p[0] == starting_word@);
                        assert(p[1] == x[0]);
                        assert(walk_ok(*adj, p)) by {
                            assert forall|z: int| 0 <= z < p.len() implies adj.node_has(
                                #[trigger] p[z]) by {
                                if z > 0 {
                                    assert(p[z] == x[z - 1]);
                                }
                            }
                            assert forall|z: int| 0 <= z < p.len() - 1 implies adj.has_edge(
                                #[trigger] p[z], p[z + 1]) by {
                                if z == 0 {
                                    assert(p[0] == starting_word@ && p[1] == x[0]);
                                } else {
                                    assert(p[z] == x[z - 1] && p[z + 1] == x[z]);
                                }
                            }
                        }
                        assert(0 <= tt0 < t + 1 && p[1] == adj.nodes@[(
                        #[trigger] adj.edges@[idx as int]@[tt0]) as int]@);
                    }
                    if p.len() == target_len && p[0] == starting_word@ && walk_ok(*adj, p)
                        && exists|tt: int|
                        0 <= tt < t + 1 && p[1] == adj.nodes@[(
                        #[trigger] adj.edges@[idx as int]@[tt]) as int]@ {
                        let tt = choose|tt: int|
                            0 <= tt < t + 1 && p[1] == adj.nodes@[(
                            #[trigger] adj.edges@[idx as int]@[tt]) as int]@;
                        if tt < t {
                            assert(path_list_has(pre_outer, p));
                            assert(path_list_has(paths@, p));
                        } else {
                            let x = p.skip(1);
                            assert(x.len() == max_i - (i + 1) + 1);
                            assert(x[0] == p[1]);
                            assert(p[1] == adj.nodes@[jj]@ && adj.nodes@[jj]@ == neighbor@);
                            assert(walk_ok(*adj, x)) by {
                                assert forall|z: int| 0 <= z < x.len() implies adj.node_has(
                                    #[trigger] x[z]) by {
                                    assert(x[z] == p[z + 1]);
                                }
                                assert forall|z: int| 0 <= z < x.len() - 1 implies adj.has_edge(
                                    #[trigger] x[z], x[z + 1]) by {
                                    assert(x[z] == p[z + 1] && x[z + 1] == p[z + 2]);
                                }
                            }
                            assert(path_list_has(sub@, x));
                            let qq = choose|qq: int|
                                0 <= qq < sub@.len() && words_view((#[trigger] sub@[qq])@) == x;
                            assert(p =~= seq![starting_word@] + words_view(sub@[qq]@));
                            assert(path_list_has(paths@, p));
                        }
                    }
                }
            }
        }
        proof {
            assert forall|p: Seq<Seq<char>>|
                #[trigger] path_list_has(paths@, p) <==> (p.len() == target_len && p[0]
                    == starting_word@ && walk_ok(*adj, p)) by {
                if p.len() == target_len && p[0] == starting_word@ && walk_ok(*adj, p) {
                    assert(adj.has_edge(p[0], p[1]));
                    let (x, tt) = choose|x: int, tt: int|
                        0 <= x < adj.nodes@.len() && 0 <= tt < adj.edges@[x]@.len()
                            && adj.nodes@[x]@ == p[0] && adj.nodes@[(
                        #[trigger] adj.edges@[x]@[tt]) as int]@ == p[1];
                    assert(x == idx) by {
                        if x != idx {
                            assert(adj.nodes@[x]@ != adj.nodes@[idx as int]@);
                        }
                    }
                    assert(0 <= tt < row_len && p[1] == adj.nodes@[(
                    #[trigger] adj.edges@[idx as int]@[tt]) as int]@);
                }
            }
        }
        paths
    }
}

/// Every solution of exactly `words_long` words: each node is tried as a
/// chain start, and the full-coverage filter keeps the covering walks.
#[verifier::loop_isolation(false)]
pub fn find_solutions(adj: &Graph, words_long: usize) -> (solutions: Vec<Vec<String>>)
    requires
        adj.wf(),
        words_long >= 1,
    ensures
        forall|p: Seq<Seq<char>>|
            #[trigger] path_list_has(solutions@, p) <==> is_solution(*adj, p, words_long as int),
{
    let mut solutions: Vec<Vec<String>> = Vec::new();
    let n = adj.nodes.len();
    for x in 0..n
        invariant
            forall|p: Seq<Seq<char>>|
                #[trigger] path_list_has(solutions@, p) <==> (is_solution(*adj, p,
                    words_long as int) && exists|xx: int|
                    0 <= xx < x && p[0] == (#[trigger] adj.nodes@[xx])@),
    {
        let paths = generate_paths(adj, &adj.nodes[x], 1, words_long);
        let ghost pre_outer = solutions@;
        for q in 0..paths.len()
            invariant
                forall|p: Seq<Seq<char>>|
                    #[trigger] path_list_has(solutions@, p) <==> (path_list_has(pre_outer, p) || (
                    exists|qq: int|
                        0 <= qq < q && p == words_view((#[trigger] paths@[qq])@)
                            && path_letters(p).len() == 12)),
        {
            let ghost presol = solutions@;
            if is_valid_solution(&paths[q]) {
                let copy = paths[q].clone();
                proof {
                    assert forall|z: int| 0 <= z < copy@.len() implies (#[trigger] copy@[z])@
                        == paths@[q as int]@[z]@ by {}
                    assert(words_view(copy@) =~= words_view(paths@[q as int]@));
                }
                solutions.push(copy);
                proof {
                    lemma_path_list_push(presol, copy);
                }
            }
            proof {
                assert forall|p: Seq<Seq<char>>|
                    #[trigger] path_list_has(solutions@, p) <==> (path_list_has(pre_outer, p) || (
                    exists|qq: int|
                        0 <= qq < q + 1 && p == words_view((#[trigger] paths@[qq])@)
                            && path_letters(p).len() == 12)) by {
                    if exists|qq: int|
                        0 <= qq < q + 1 && p == words_view((#[trigger] paths@[qq])@)
                            && path_letters(p).len() == 12 {
                        let qq = choose|qq: int|
                            0 <= qq < q + 1 && p == words_view((#[trigger] paths@[qq])@)
                                && path_letters(p).len() == 12;
                        if qq == q {
                            assert(path_list_has(solutions@, p));
                        }
                    }
                    if path_list_has(solutions@, p) && !path_list_has(presol, p) {
                        assert(p == words_view(paths@[q as int]@) && path_letters(p).len() == 12);
                    }
                }
            }
        }
        proof {
            assert forall|p: Seq<Seq<char>>|
                #[trigger] path_list_has(solutions@, p) <==> (is_solution(*adj, p,
                    words_long as int) && exists|xx: int|
                    0 <= xx < x + 1 && p[0] == (#[trigger] adj.nodes@[xx])@) by {
                if path_list_has(solutions@, p) && !path_list_has(pre_outer, p) {
                    let qq = choose|qq: int|
                        0 <= qq < paths@.len() && p == words_view((#[trigger] paths@[qq])@)
                            && path_letters(p).len() == 12;
                    assert(path_list_has(paths@, p));
                    assert(0 <= x < x + 1 && p[0] == adj.nodes@[x as int]@);
                }
                if is_solution(*adj, p, words_long as int) && exists|xx: int|
                    0 <= xx < x + 1 && p[0] == (#[trigger] adj.nodes@[xx])@ {
                    let xx = choose|xx: int|
                        0 <= xx < x + 1 && p[0] == (#[trigger] adj.nodes@[xx])@;
                    if xx < x {
                        assert(path_list_has(pre_outer, p));
                        assert(path_list_has(solutions@, p));
                    } else {
                        assert(path_list_has(paths@, p));
                        let qq = choose|qq: int|
                            0 <= qq < paths@.len() && words_view((#[trigger] paths@[qq])@) == p;
                        assert(path_list_has(solutions@, p));
                    }
                }
            }
        }
    }
    proof {
        assert forall|p: Seq<Seq<char>>|
            #[trigger] path_list_has(solutions@, p) <==> is_solution(*adj, p,
                words_long as int) by {
            if is_solution(*adj, p, words_long as int) {
                assert(adj.node_has(p[0]));
                let xx = choose|xx: int|
                    0 <= xx < adj.nodes@.len() && (#[trigger] adj.nodes@[xx])@ == p[0];
            }
        }
    }
    solutions
}

/// Appending entries that are not two words long leaves the two-word
/// count unchanged.
proof fn lemma_two_word_count_extend(a: Seq<Vec<String>>, b: Seq<Vec<String>>)
    requires
        forall|i: int| 0 <= i < b.len() ==> (#[trigger] b[i])@.len() != 2,
    ensures
        two_word_count(a + b) == two_word_count(a),
    decreases b.len(),
{
    if b.len() == 0 {
        assert(a + b =~= a);
    } else {
        assert((a + b).drop_last() =~= a + b.drop_last());
        assert((a + b).last() == b.last());
        lemma_two_word_count_extend(a, b.drop_last());
    }
}

/// A list of two-word entries alone has as many of them as entries.
proof fn lemma_two_word_count_all(s: Seq<Vec<String>>)
    requires
        forall|i: int| 0 <= i < s.len() ==> (#[trigger] s[i])@.len() == 2,
    ensures
        two_word_count(s) == s.len(),
    decreases s.len(),
{
    if s.len() > 0 {
        lemma_two_word_count_all(s.drop_last());
    }
}

/// The complete search: every two-word solution, followed, only when
/// fewer than `SOLUTION_THRESHOLD` of those exist, by every three-word
/// solution.  Shorter solutions always precede longer ones.
pub fn find_all_solutions(adj: &Graph) -> (solutions: Vec<Vec<String>>)
    requires
        adj.wf(),
    ensures
        forall|p: Seq<Seq<char>>|
            #[trigger] path_list_has(solutions@, p) ==> (is_solution(*adj, p, 2) || is_solution(
                *adj, p, 3)),
        forall|p: Seq<Seq<char>>| is_solution(*adj, p, 2) ==> #[trigger] path_list_has(
            solutions@, p),
        forall|k: int, l: int|
            0 <= k < l < solutions@.len() ==> (#[trigger] solutions@[k])@.len() <= (
            #[trigger] solutions@[l])@.len(),
        two_word_count(solutions@) < SOLUTION_THRESHOLD ==> (forall|p: Seq<Seq<char>>|
            is_solution(*adj, p, 3) ==> #[trigger] path_list_has(solutions@, p)),
        two_word_count(solutions@) >= SOLUTION_THRESHOLD ==> (forall|p: Seq<Seq<char>>|
            #[trigger] path_list_has(solutions@, p) ==> is_solution(*adj, p, 2)),
{
    let mut sols = find_solutions(adj, 2);
    proof {
        assert forall|k: int| 0 <= k < sols@.len() implies (#[trigger] sols@[k])@.len() == 2 by {
            assert(path_list_has(sols@, words_view(sols@[k]@)));
            assert(words_view(sols@[k]@).len() == 2);
        }
    }
    if sols.len() < SOLUTION_THRESHOLD {
        let mut three = find_solutions(adj, 3);
        proof {
            assert forall|k: int|
                0 <= k < three@.len() implies (#[trigger] three@[k])@.len() == 3 by {
                assert(path_list_has(three@, words_view(three@[k]@)));
                assert(words_view(three@[k]@).len() == 3);
            }
        }
        let ghost pre = sols@;
        let ghost threev = three@;
        sols.append(&mut three);
        proof {
            lemma_path_list_split(pre, threev);
            lemma_two_word_count_extend(pre, threev);
            lemma_two_word_count_all(pre);
            assert(two_word_count(sols@) == pre.len());
            assert forall|k: int, l: int|
                0 <= k < l < sols@.len() implies (#[trigger] sols@[k])@.len() <= (
                #[trigger] sols@[l])@.len() by {
                if k < pre.len() {
                    assert(sols@[k] == pre[k]);
                } else {
                    assert(sols@[k] == threev[k - pre.len()]);
                }
                if l < pre.len() {
                    assert(sols@[l] == pre[l]);
                } else {
                    assert(sols@[l] == threev[l - pre.len()]);
                }
            }
        }
        sols
    } else {
        proof {
            lemma_two_word_count_all(sols@);
        }
        sols
    }
}

} // verus!
