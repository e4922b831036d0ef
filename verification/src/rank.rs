//! Ranking of candidate solutions and the output text format.

use vstd::prelude::*;
use crate::words::words_view;

verus! {

/// The chains of a solution list, as sequences of character sequences.
pub open spec fn paths_deep(s: Seq<Vec<String>>) -> Seq<Seq<Seq<char>>> {
    Seq::new(s.len(), |k: int| words_view(s[k]@))
}

/// Chains appear in order of word count, fewest first.
pub open spec fn sorted_by_len(s: Seq<Seq<Seq<char>>>) -> bool {
    forall|k: int, l: int| 0 <= k < l < s.len() ==> (#[trigger] s[k]).len() <= (#[trigger] s[l]).len()
}

/// Inserts `x` after every entry with no more words than it, keeping the
/// order of equal word counts stable.
pub open spec fn insert_by_len(s: Seq<Seq<Seq<char>>>, x: Seq<Seq<char>>) -> Seq<Seq<Seq<char>>>
    decreases s.len(),
{
    if s.len() == 0 {
        seq![x]
    } else if s.last().len() <= x.len() {
        s.push(x)
    } else {
        insert_by_len(s.drop_last(), x).push(s.last())
    }
}

/// Stable sort of the chains by word count, fewest words first.
pub open spec fn sort_by_len(s: Seq<Seq<Seq<char>>>) -> Seq<Seq<Seq<char>>>
    decreases s.len(),
{
    if s.len() == 0 {
        Seq::empty()
    } else {
        insert_by_len(sort_by_len(s.drop_last()), s.last())
    }
}

proof fn lemma_insert_by_len_sorted(s: Seq<Seq<Seq<char>>>, x: Seq<Seq<char>>)
    requires
        sorted_by_len(s),
    ensures
        sorted_by_len(insert_by_len(s, x)),
        insert_by_len(s, x).len() == s.len() + 1,
        insert_by_len(s, x).to_multiset() == s.to_multiset().insert(x),
    decreases s.len(),
{
    broadcast use vstd::seq_lib::group_to_multiset_ensures;

    if s.len() == 0 {
        assert(seq![x] =~= Seq::<Seq<Seq<char>>>::empty().push(x));
    } else if s.last().len() <= x.len() {
        assert forall|k: int, l: int|
            0 <= k < l < s.push(x).len() implies (#[trigger] s.push(x)[k]).len() <= (
            #[trigger] s.push(x)[l]).len() by {
            if l < s.len() {
                assert(s.push(x)[k] == s[k] && s.push(x)[l] == s[l]);
            } else {
                if k < s.len() - 1 {
                    assert(s[k].len() <= s[s.len() - 1].len());
                }
            }
        }
    } else {
        lemma_insert_by_len_sorted(s.drop_last(), x);
        let t = insert_by_len(s.drop_last(), x);
        assert(s.drop_last().to_multiset().insert(s.last()) == s.to_multiset()) by {
            assert(s.drop_last().push(s.last()) =~= s);
        }
        assert forall|k: int, l: int|
            0 <= k < l < t.push(s.last()).len() implies (#[trigger] t.push(s.last())[k]).len()
            <= (#[trigger] t.push(s.last())[l]).len() by {
            if l < t.len() {
                assert(t.push(s.last())[k] == t[k] && t.push(s.last())[l] == t[l]);
            } else {
                // every entry of t is either x or an entry of s.drop_last()
                assert(t.to_multiset().contains(t[k]));
                if t[k] == x {
                } else {
                    assert(s.drop_last().to_multiset().contains(t[k]));
                    assert(s.drop_last().contains(t[k]));
                    let m = choose|m: int|
                        0 <= m < s.drop_last().len() && s.drop_last()[m] == t[k];
                    assert(s[m].len() <= s.last().len());
                }
            }
        }
    }
}

/// The sorted output: as long as the input, and in order of word count.
pub proof fn lemma_sort_by_len_sorted(s: Seq<Seq<Seq<char>>>)
    ensures
        sorted_by_len(sort_by_len(s)),
        sort_by_len(s).len() == s.len(),
    decreases s.len(),
{
    if s.len() > 0 {
        lemma_sort_by_len_sorted(s.drop_last());
        lemma_insert_by_len_sorted(sort_by_len(s.drop_last()), s.last());
    }
}

/// Sorting a list that is already in order leaves it unchanged.
pub proof fn lemma_sort_of_sorted(s: Seq<Seq<Seq<char>>>)
    requires
        sorted_by_len(s),
    ensures
        sort_by_len(s) == s,
    decreases s.len(),
{
    if s.len() > 0 {
        assert forall|k: int, l: int|
            0 <= k < l < s.drop_last().len() implies (#[trigger] s.drop_last()[k]).len() <= (
            #[trigger] s.drop_last()[l]).len() by {
            assert(s.drop_last()[k] == s[k] && s.drop_last()[l] == s[l]);
        }
        lemma_sort_of_sorted(s.drop_last());
        if s.len() == 1 {
            assert(insert_by_len(s.drop_last(), s.last()) =~= s);
        } else {
            assert(s[s.len() - 2].len() <= s[s.len() - 1].len());
            assert(s.drop_last().last().len() <= s.last().len());
            assert(s.drop_last().push(s.last()) =~= s);
        }
    }
}

/// Ranking idempotence: sorting the ranked list again changes nothing.
pub proof fn lemma_rank_idempotent(s: Seq<Seq<Seq<char>>>)
    ensures
        sort_by_len(sort_by_len(s)) == sort_by_len(s),
{
    lemma_sort_by_len_sorted(s);
    lemma_sort_of_sorted(sort_by_len(s));
}

/// Where the stable sort puts a new entry: right before the first kept
/// entry with strictly more words.
proof fn lemma_insert_by_len_at(t: Seq<Seq<Seq<char>>>, x: Seq<Seq<char>>, pos: int)
    requires
        sorted_by_len(t),
        0 <= pos <= t.len(),
        forall|m: int| 0 <= m < pos ==> (#[trigger] t[m]).len() <= x.len(),
        pos < t.len() ==> t[pos].len() > x.len(),
    ensures
        insert_by_len(t, x) == t.insert(pos, x),
    decreases t.len(),
{
    if t.len() == 0 {
        assert(seq![x] =~= t.insert(0, x));
    } else if t.last().len() <= x.len() {
        assert(pos == t.len()) by {
            if pos < t.len() {
                assert(t[pos].len() <= t[t.len() - 1].len());
            }
        }
        assert(t.push(x) =~= t.insert(pos, x));
    } else {
        assert(pos < t.len());
        assert forall|k: int, l: int|
            0 <= k < l < t.drop_last().len() implies (#[trigger] t.drop_last()[k]).len() <= (
            #[trigger] t.drop_last()[l]).len() by {
            assert(t.drop_last()[k] == t[k] && t.drop_last()[l] == t[l]);
        }
        lemma_insert_by_len_at(t.drop_last(), x, pos);
        assert(t.drop_last().insert(pos, x).push(t.last()) =~= t.insert(pos, x));
    }
}

/// The `num_solutions` solutions with the fewest words, fewest first, in
/// a stable order: the result is the stable sort of the input truncated
/// to the requested count.
#[verifier::loop_isolation(false)]
pub fn rank_solutions(sol: &Vec<Vec<String>>, num_solutions: usize) -> (res: Vec<Vec<String>>)
    requires
        num_solutions <= sol@.len(),
    ensures
        paths_deep(res@) == sort_by_len(paths_deep(sol@)).take(num_solutions as int),
        res@.len() == num_solutions,
        sorted_by_len(paths_deep(res@)),
{
    let mut ranked: Vec<Vec<String>> = Vec::new();
    let n = sol.len();
    for k in 0..n
        invariant
            paths_deep(ranked@) == sort_by_len(paths_deep(sol@).take(k as int)),
            ranked@.len() == k,
    {
        proof {
            lemma_sort_by_len_sorted(paths_deep(sol@).take(k as int));
        }
        let x = sol[k].clone();
        proof {
            assert forall|z: int| 0 <= z < x@.len() implies (#[trigger] x@[z])@
                == sol@[k as int]@[z]@ by {}
            assert(words_view(x@) =~= words_view(sol@[k as int]@));
        }
        let x_len = x.len();
        let mut pos: usize = 0;
        while pos < ranked.len() && ranked[pos].len() <= x_len
            invariant
                pos <= ranked@.len(),
                forall|m: int| 0 <= m < pos ==> (#[trigger] ranked@[m])@.len() <= x_len,
            decreases ranked@.len() - pos,
        {
            pos += 1;
        }
        let ghost pre = ranked@;
        ranked.insert(pos, x);
        proof {
            let t = paths_deep(pre);
            assert(forall|m: int| 0 <= m < t.len() ==> (#[trigger] t[m]).len() == pre[m]@.len());
            lemma_insert_by_len_at(t, words_view(x@), pos as int);
            assert(paths_deep(ranked@) =~= t.insert(pos as int, words_view(x@))) by {
                assert forall|z: int|
                    0 <= z < ranked@.len() implies paths_deep(ranked@)[z] == t.insert(
                    pos as int, words_view(x@))[z] by {
                    assert(ranked@ == pre.insert(pos as int, x));
                    if z < pos {
                        assert(ranked@[z] == pre[z]);
                    } else if z == pos {
                        assert(ranked@[z] == x);
                    } else {
                        assert(ranked@[z] == pre[z - 1]);
                    }
                }
            }
            assert(paths_deep(sol@).take(k + 1 as int).drop_last() =~= paths_deep(sol@).take(
                k as int));
            assert(paths_deep(sol@).take(k + 1 as int).last() == words_view(sol@[k as int]@));
            assert(paths_deep(ranked@) == sort_by_len(paths_deep(sol@).take(k + 1 as int)));
        }
    }
    proof {
        assert(paths_deep(sol@).take(n as int) =~= paths_deep(sol@));
        lemma_sort_by_len_sorted(paths_deep(sol@));
    }
    ranked.truncate(num_solutions);
    proof {
        assert(paths_deep(ranked@) =~= sort_by_len(paths_deep(sol@)).take(
            num_solutions as int)) by {
            assert forall|z: int|
                0 <= z < ranked@.len() implies paths_deep(ranked@)[z] == sort_by_len(paths_deep(
                sol@)).take(num_solutions as int)[z] by {}
        }
        assert forall|k: int, l: int|
            0 <= k < l < paths_deep(ranked@).len() implies (#[trigger] paths_deep(ranked@)[
            k]).len() <= (#[trigger] paths_deep(ranked@)[l]).len() by {
            let full = sort_by_len(paths_deep(sol@));
            assert(paths_deep(ranked@)[k] == full[k] && paths_deep(ranked@)[l] == full[l]);
        }
    }
    ranked
}

/// Joins the parts with the separator between consecutive parts.
pub open spec fn join_with(parts: Seq<Seq<char>>, sep: char) -> Seq<char>
    decreases parts.len(),
{
    if parts.len() == 0 {
        Seq::empty()
    } else if parts.len() == 1 {
        parts[0]
    } else {
        join_with(parts.drop_last(), sep) + seq![sep] + parts.last()
    }
}

/// One output line per chain: its words joined by single spaces.
pub open spec fn line_views(sols: Seq<Seq<Seq<char>>>) -> Seq<Seq<char>> {
    Seq::new(sols.len(), |k: int| join_with(sols[k], ' '))
}

/// The whole output text: the lines joined by newlines.
pub open spec fn solution_lines(sols: Seq<Seq<Seq<char>>>) -> Seq<char> {
    join_with(line_views(sols), '\n')
}

/// Renders the solution list as text: every solution on its own line, its
/// words separated by single spaces.
#[verifier::loop_isolation(false)]
pub fn format_solutions(solutions: &Vec<Vec<String>>) -> (r: String)
    ensures
        r@ == solution_lines(paths_deep(solutions@)),
{
    let ghost deep = paths_deep(solutions@);
    let mut out = String::new();
    let n = solutions.len();
    for k in 0..n
        invariant
            out@ == join_with(line_views(deep).subrange(0, k as int), '\n'),
    {
        if k > 0 {
            out.append("\n");
            proof {
                reveal_strlit("\n");
                assert("\n"@ =~= seq!['\n']);
            }
        }
        let sol = &solutions[k];
        let m = sol.len();
        let ghost base = out@;
        for t in 0..m
            invariant
                m == sol@.len(),
                out@ == base + join_with(words_view(sol@).subrange(0, t as int), ' '),
        {
            if t > 0 {
                out.append(" ");
                proof {
                    reveal_strlit(" ");
                    assert(" "@ =~= seq![' ']);
                }
            }
            out.append(sol[t].as_str());
            proof {
                assert(words_view(sol@).subrange(0, t + 1 as int).drop_last() =~= words_view(
                    sol@).subrange(0, t as int));
                assert(words_view(sol@).subrange(0, t + 1 as int).last() == sol@[t as int]@);
                if t > 0 {
                    assert(out@ =~= base + join_with(words_view(sol@).subrange(0, t + 1 as int),
                        ' '));
                } else {
                    assert(words_view(sol@).subrange(0, 1) =~= seq![sol@[0]@]);
                    assert(out@ =~= base + join_with(words_view(sol@).subrange(0, 1), ' '));
                }
            }
        }
        proof {
            assert(words_view(sol@).subrange(0, m as int) =~= words_view(sol@));
            assert(line_views(deep)[k as int] == join_with(words_view(sol@), ' '));
            assert(line_views(deep).subrange(0, k + 1 as int).drop_last() =~= line_views(
                deep).subrange(0, k as int));
            assert(line_views(deep).subrange(0, k + 1 as int).last() == line_views(deep)[
                k as int]);
            if k > 0 {
                assert(out@ =~= join_with(line_views(deep).subrange(0, k + 1 as int), '\n'));
            } else {
                assert(line_views(deep).subrange(0, 1) =~= seq![line_views(deep)[0]]);
                assert(out@ =~= join_with(line_views(deep).subrange(0, 1), '\n'));
            }
        }
    }
    proof {
        assert(line_views(deep).subrange(0, n as int) =~= line_views(deep));
    }
    out
}

} // verus!
