//! Spec-level helpers for lists of words and word chains.

use vstd::prelude::*;

verus! {

/// Some entry of the word list spells `w`.
pub open spec fn word_list_has(ws: Seq<String>, w: Seq<char>) -> bool {
    exists|k: int| 0 <= k < ws.len() && (#[trigger] ws[k])@ == w
}

/// The list of words as a sequence of character sequences.
pub open spec fn words_view(ws: Seq<String>) -> Seq<Seq<char>> {
    Seq::new(ws.len(), |k: int| ws[k]@)
}

/// Some entry of the path list spells the chain `p`.
pub open spec fn path_list_has(ps: Seq<Vec<String>>, p: Seq<Seq<char>>) -> bool {
    exists|k: int| 0 <= k < ps.len() && words_view((#[trigger] ps[k])@) == p
}

/// The set of characters used by the words of a chain.
pub open spec fn path_letters(p: Seq<Seq<char>>) -> Set<char> {
    Set::new(|c: char| exists|k: int| 0 <= k < p.len() && (#[trigger] p[k]).contains(c))
}

/// Word `a` can be followed by word `b` in a chain: they differ and the
/// last character of `a` equals the first character of `b`.
pub open spec fn chains(a: Seq<char>, b: Seq<char>) -> bool {
    a != b && a.len() > 0 && b.len() > 0 && a[a.len() - 1] == b[0]
}

/// Membership in a concatenated word list splits over the two halves.
pub proof fn lemma_word_list_split(a: Seq<String>, b: Seq<String>)
    ensures
        forall|w: Seq<char>|
            #[trigger] word_list_has(a + b, w) <==> (word_list_has(a, w) || word_list_has(b, w)),
{
    assert forall|w: Seq<char>|
        #[trigger] word_list_has(a + b, w) <==> (word_list_has(a, w) || word_list_has(b, w)) by {
        if word_list_has(a + b, w) {
            let k = choose|k: int| 0 <= k < (a + b).len() && (#[trigger] (a + b)[k])@ == w;
            if k < a.len() {
                assert((a + b)[k] == a[k]);
                assert(word_list_has(a, w));
            } else {
                assert((a + b)[k] == b[k - a.len()]);
                assert(word_list_has(b, w));
            }
        }
        if word_list_has(a, w) {
            let k = choose|k: int| 0 <= k < a.len() && (#[trigger] a[k])@ == w;
            assert((a + b)[k] == a[k]);
            assert(word_list_has(a + b, w));
        }
        if word_list_has(b, w) {
            let k = choose|k: int| 0 <= k < b.len() && (#[trigger] b[k])@ == w;
            assert((a + b)[k + a.len()] == b[k]);
            assert(word_list_has(a + b, w));
        }
    }
}

/// Membership after appending one word.
pub proof fn lemma_word_list_push(a: Seq<String>, x: String)
    ensures
        forall|w: Seq<char>|
            #[trigger] word_list_has(a.push(x), w) <==> (word_list_has(a, w) || x@ == w),
{
    assert forall|w: Seq<char>|
        #[trigger] word_list_has(a.push(x), w) <==> (word_list_has(a, w) || x@ == w) by {
        if word_list_has(a.push(x), w) {
            let k = choose|k: int| 0 <= k < a.push(x).len() && (#[trigger] a.push(x)[k])@ == w;
            if k < a.len() {
                assert(a.push(x)[k] == a[k]);
                assert(word_list_has(a, w));
            }
        }
        if word_list_has(a, w) {
            let k = choose|k: int| 0 <= k < a.len() && (#[trigger] a[k])@ == w;
            assert(a.push(x)[k] == a[k]);
            assert(word_list_has(a.push(x), w));
        }
        if x@ == w {
            assert(a.push(x)[a.len() as int] == x);
            assert(word_list_has(a.push(x), w));
        }
    }
}

/// Membership in a concatenated path list splits over the two halves.
pub proof fn lemma_path_list_split(a: Seq<Vec<String>>, b: Seq<Vec<String>>)
    ensures
        forall|p: Seq<Seq<char>>|
            #[trigger] path_list_has(a + b, p) <==> (path_list_has(a, p) || path_list_has(b, p)),
{
    assert forall|p: Seq<Seq<char>>|
        #[trigger] path_list_has(a + b, p) <==> (path_list_has(a, p) || path_list_has(b, p)) by {
        if path_list_has(a + b, p) {
            let k = choose|k: int|
                0 <= k < (a + b).len() && words_view((#[trigger] (a + b)[k])@) == p;
            if k < a.len() {
                assert((a + b)[k] == a[k]);
                assert(path_list_has(a, p));
            } else {
                assert((a + b)[k] == b[k - a.len()]);
                assert(path_list_has(b, p));
            }
        }
        if path_list_has(a, p) {
            let k = choose|k: int| 0 <= k < a.len() && words_view((#[trigger] a[k])@) == p;
            assert((a + b)[k] == a[k]);
            assert(path_list_has(a + b, p));
        }
        if path_list_has(b, p) {
            let k = choose|k: int| 0 <= k < b.len() && words_view((#[trigger] b[k])@) == p;
            assert((a + b)[k + a.len()] == b[k]);
            assert(path_list_has(a + b, p));
        }
    }
}

/// Membership after appending one path.
pub proof fn lemma_path_list_push(a: Seq<Vec<String>>, x: Vec<String>)
    ensures
        forall|p: Seq<Seq<char>>|
            #[trigger] path_list_has(a.push(x), p) <==> (path_list_has(a, p) || words_view(x@)
                == p),
{
    assert forall|p: Seq<Seq<char>>|
        #[trigger] path_list_has(a.push(x), p) <==> (path_list_has(a, p) || words_view(x@)
            == p) by {
        if path_list_has(a.push(x), p) {
            let k = choose|k: int|
                0 <= k < a.push(x).len() && words_view((#[trigger] a.push(x)[k])@) == p;
            if k < a.len() {
                assert(a.push(x)[k] == a[k]);
                assert(path_list_has(a, p));
            } else {
                assert(a.push(x)[k] == x);
            }
        }
        if path_list_has(a, p) {
            let k = choose|k: int| 0 <= k < a.len() && words_view((#[trigger] a[k])@) == p;
            assert(a.push(x)[k] == a[k]);
            assert(path_list_has(a.push(x), p));
        }
        if words_view(x@) == p {
            assert(words_view((a.push(x)[a.len() as int])@) == p);
            assert(path_list_has(a.push(x), p));
        }
    }
}

} // verus!
