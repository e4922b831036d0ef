//! The lexicon index: a prefix tree over the dictionary words.

use vstd::prelude::*;
use crate::letterbox::LetterBox;
use crate::words::{word_list_has, lemma_word_list_split};

verus! {

broadcast use vstd::std_specs::vec::group_vec_axioms;

/// One node of the prefix tree.  `value` is the character on the edge that
/// leads to this node (`None` at the root), `is_end` marks that the path
/// from the root to this node spells a complete word, and `children` maps
/// each outgoing character to the corresponding subtree.
pub struct TrieNode {
    pub value: Option<char>,
    pub is_end: bool,
    pub children: Vec<(char, TrieNode)>,
}

impl TrieNode {
    /// Children carry pairwise distinct characters, recursively.
    pub open spec fn wf(self) -> bool
        decreases self,
    {
        &&& (forall|i: int, j: int|
            0 <= i < j < self.children@.len() ==> self.children@[i].0 != self.children@[j].0)
        &&& (forall|i: int|
            0 <= i < self.children@.len() ==> (#[trigger] self.children@[i]).1.wf())
    }

    /// The word `w` is spelled by a path from this node ending at a node
    /// whose `is_end` flag is set.
    pub open spec fn has_word(self, w: Seq<char>) -> bool
        decreases w.len(),
    {
        if w.len() == 0 {
            self.is_end
        } else {
            exists|i: int|
                0 <= i < self.children@.len() && (#[trigger] self.children@[i]).0 == w[0]
                    && self.children@[i].1.has_word(w.skip(1))
        }
    }

    /// Some child edge of this node carries the character `c`.
    pub open spec fn has_child(self, c: char) -> bool {
        exists|i: int| 0 <= i < self.children@.len() && (#[trigger] self.children@[i]).0 == c
    }

    /// A fresh node with no children.
    pub fn new(value: Option<char>, is_end: bool) -> (node: TrieNode)
        ensures
            node.value == value,
            node.is_end == is_end,
            node.children@ == Seq::<(char, TrieNode)>::empty(),
            node.wf(),
            forall|w: Seq<char>| node.has_word(w) <==> (is_end && w.len() == 0),
    {
        let node = TrieNode { value, is_end, children: Vec::new() };
        proof {
            assert forall|w: Seq<char>| node.has_word(w) <==> (is_end && w.len() == 0) by {
                if w.len() > 0 {
                    assert(!node.has_word(w));
                }
            }
        }
        node
    }

    /// Whether this node has an outgoing edge labelled `c`.
    pub fn contains_char(&self, c: char) -> (r: bool)
        ensures
            r == self.has_child(c),
    {
        let n = self.children.len();
        for i in 0..n
            invariant
                n == self.children@.len(),
            forall|j: int| 0 <= j < i ==> (#[trigger] self.children@[j]).0 != c,
        {
            if self.children[i].0 == c {
                return true;
            }
        }
        false
    }
}

/// The lexicon index.  Its abstraction is the set of words inserted so far.
pub struct Trie {
    pub root: TrieNode,
}

impl View for Trie {
    type V = Set<Seq<char>>;

    open spec fn view(&self) -> Set<Seq<char>> {
        Set::new(|w: Seq<char>| self.root.has_word(w))
    }
}

impl Trie {
    pub open spec fn wf(self) -> bool {
        self.root.wf()
    }

    /// An empty lexicon: no word is contained.
    pub fn new() -> (t: Trie)
        ensures
            t.wf(),
            t@ == Set::<Seq<char>>::empty(),
    {
        let t = Trie { root: TrieNode::new(None, false) };
        proof {
            assert(t@ =~= Set::<Seq<char>>::empty());
        }
        t
    }

    /// Adds the word `s`; all previously inserted words remain.
    pub fn insert(&mut self, s: String)
        requires
            old(self).wf(),
        ensures
            final(self).wf(),
            final(self)@ == old(self)@.insert(s@),
    {
        let cs = crate::letterbox::chars_of(s.as_str());
        insert_at(&mut self.root, &cs, 0);
        proof {
            assert(cs@.skip(0) =~= s@);
            assert(self@ =~= old(self)@.insert(s@));
        }
    }

    /// True iff the exact word `s` was inserted (not merely a prefix).
    pub fn contains_word(&self, s: String) -> (r: bool)
        requires
            self.wf(),
        ensures
            r == self@.contains(s@),
    {
        let cs = crate::letterbox::chars_of(s.as_str());
        let r = lookup(&self.root, &cs, 0);
        proof {
            assert(cs@.skip(0) =~= s@);
        }
        r
    }

    /// Every word of the lexicon that can be played on the frame, found by
    /// launching the constrained walk once per starting side.  A word is in
    /// the result exactly when it is in the lexicon and legal for the frame.
    pub fn find_valid_words(&self, letterbox: &LetterBox) -> (words: Vec<String>)
        requires
            self.wf(),
        ensures
            forall|w: Seq<char>|
                #[trigger] word_list_has(words@, w) <==> (self@.contains(w)
                    && letterbox.legal_word(w)),
    {
        let mut v: Vec<String> = Vec::new();
        let mut i: i32 = 0;
        while i < 4
            invariant
                self.wf(),
                0 <= i <= 4,
                forall|w: Seq<char>|
                    #[trigger] word_list_has(v@, w) <==> (self.root.has_word(w) && exists|s: int|
                        0 <= s < i && #[trigger] letterbox.legal_from(w, s)),
            decreases 4 - i,
        {
            let mut part = self.find_valid_words_helper(&self.root, letterbox, String::new(), i);
            let ghost pre = v@;
            let ghost partv = part@;
            v.append(&mut part);
            proof {
                lemma_word_list_split(pre, partv);
                assert forall|w: Seq<char>|
                    #[trigger] word_list_has(v@, w) <==> (self.root.has_word(w) && exists|s: int|
                        0 <= s < i + 1 && #[trigger] letterbox.legal_from(w, s)) by {
                    assert(word_list_has(v@, w) <==> (word_list_has(pre, w) || word_list_has(
                        partv, w)));
                    if word_list_has(partv, w) {
                        let u = choose|u: Seq<char>|
                            w == Seq::<char>::empty() + u && #[trigger] self.root.has_word(u)
                                && letterbox.legal_from(u, i as int);
                        assert(Seq::<char>::empty() + u =~= u);
                        assert(self.root.has_word(w) && letterbox.legal_from(w, i as int));
                    }
                    if self.root.has_word(w) && exists|s: int|
                        0 <= s < i + 1 && #[trigger] letterbox.legal_from(w, s) {
                        let s = choose|s: int|
                            0 <= s < i + 1 && #[trigger] letterbox.legal_from(w, s);
                        if s < i {
                            assert(word_list_has(pre, w));
                        } else {
                            assert(Seq::<char>::empty() + w =~= w);
                            assert(emits_below(*letterbox, self.root, Seq::<char>::empty(),
                                i as int, w));
                            assert(word_list_has(partv, w));
                        }
                    }
                }
            }
            i = i + 1;
        }
        proof {
            assert forall|w: Seq<char>|
                #[trigger] word_list_has(v@, w) <==> (self@.contains(w)
                    && letterbox.legal_word(w)) by {
                crate::letterbox::lemma_legal_word_start(*letterbox, w);
            }
        }
        v
    }

    /// The constrained depth-first walk below `node`: `curr_word` spells the
    /// path taken so far and `idx` is the side that produced its last
    /// character (or any value outside 0..4 at a fresh start).
    #[verifier::loop_isolation(false)]
    pub fn find_valid_words_helper(&self, node: &TrieNode, letterbox: &LetterBox, curr_word: String, idx: i32) -> (words: Vec<String>)
        requires
            node.wf(),
        ensures
            forall|w: Seq<char>|
                #[trigger] word_list_has(words@, w) <==> emits_below(*letterbox, *node,
                    curr_word@, idx as int, w),
        decreases node,
    {
        let mut words: Vec<String> = Vec::new();
        if node.is_end {
            words.push(curr_word.clone());
        }
        proof {
            assert forall|w: Seq<char>|
                #[trigger] word_list_has(words@, w) <==> (node.is_end && w == curr_word@) by {
                if word_list_has(words@, w) {
                    let k = choose|k: int| 0 <= k < words@.len() && (#[trigger] words@[k])@ == w;
                }
                if node.is_end && w == curr_word@ {
                    assert(words@[0]@ == w);
                    assert(word_list_has(words@, w));
                }
            }
        }
        let mut i: i32 = 0;
        while i < 4
            invariant
                0 <= i <= 4,
                forall|w: Seq<char>|
                    #[trigger] word_list_has(words@, w) <==> ((node.is_end && w == curr_word@)
                        || (exists|s: int|
                        0 <= s < i && s != idx && #[trigger] emits_via_side(*letterbox, *node,
                            curr_word@, s, w))),
            decreases 4 - i,
        {
            if i != idx {
                let possible_chars = if i == 0 {
                    &letterbox.top
                } else if i == 1 {
                    &letterbox.bottom
                } else if i == 2 {
                    &letterbox.left
                } else {
                    &letterbox.right
                };
                proof {
                    assert(possible_chars@ == letterbox.side(i as int));
                    assert(letterbox.side(i as int).subrange(0, 0) =~= Seq::<char>::empty());
                }
                let m = possible_chars.len();
                let mut k: usize = 0;
                while k < m
                    invariant
                        0 <= k <= m,
                        forall|w: Seq<char>|
                            #[trigger] word_list_has(words@, w) <==> ((node.is_end && w
                                == curr_word@) || (exists|s: int|
                                0 <= s < i && s != idx && #[trigger] emits_via_side(*letterbox,
                                    *node, curr_word@, s, w)) || emits_via_side_upto(*letterbox,
                                *node, curr_word@, i as int, k as int, w)),
                    decreases m - k,
                {
                    let c = possible_chars[k];
                    let ghost prewords = words@;
                    let fc = find_child(node, c);
                    if let Some(j) = fc {
                        proof {
                            assert(node.children@[j as int].1.wf());
                        }
                        let mut next_word = curr_word.clone();
                        next_word.push(c);
                        let mut part = self.find_valid_words_helper(
                            &node.children[j].1,
                            letterbox,
                            next_word,
                            i,
                        );
                        let ghost partv = part@;
                        words.append(&mut part);
                        proof {
                            lemma_word_list_split(prewords, partv);
                            lemma_descend(*letterbox, *node, curr_word@, c, j as int, i as int);
                            lemma_upto_extend(*letterbox, *node, curr_word@, i as int, k as int,
                                c);
                            assert(next_word@ == curr_word@.push(c));
                            assert forall|w: Seq<char>|
                                #[trigger] word_list_has(partv, w) <==> (exists|v: Seq<char>|
                                    w == curr_word@ + v && v.len() > 0 && v[0] == c
                                        && #[trigger] node.has_word(v) && letterbox.legal_from(
                                        v.skip(1), i as int)) by {
                                assert(word_list_has(partv, w) <==> emits_below(*letterbox,
                                    node.children@[j as int].1, next_word@, i as int, w));
                                assert(emits_below(*letterbox, node.children@[j as int].1,
                                    curr_word@.push(c), i as int, w) <==> (exists|v: Seq<char>|
                                    w == curr_word@ + v && v.len() > 0 && v[0] == c
                                        && #[trigger] node.has_word(v) && letterbox.legal_from(
                                        v.skip(1), i as int)));
                            }
                            assert(forall|w: Seq<char>|
                                #[trigger] word_list_has(words@, w) <==> (word_list_has(prewords,
                                    w) || word_list_has(partv, w)));
                        }
                    } else {
                        proof {
                            lemma_upto_extend(*letterbox, *node, curr_word@, i as int, k as int,
                                c);
                            assert forall|w: Seq<char>|
                                #[trigger] emits_via_side_upto(*letterbox, *node, curr_word@,
                                    i as int, k + 1 as int, w) <==> emits_via_side_upto(
                                    *letterbox, *node, curr_word@, i as int, k as int, w) by {
                                if exists|v: Seq<char>|
                                    w == curr_word@ + v && v.len() > 0 && v[0] == c
                                        && #[trigger] node.has_word(v) && letterbox.legal_from(
                                        v.skip(1), i as int) {
                                    let v = choose|v: Seq<char>|
                                        w == curr_word@ + v && v.len() > 0 && v[0] == c
                                            && #[trigger] node.has_word(v)
                                            && letterbox.legal_from(v.skip(1), i as int);
                                    let mm = choose|mm: int|
                                        0 <= mm < node.children@.len()
                                            && (#[trigger] node.children@[mm]).0 == v[0]
                                            && node.children@[mm].1.has_word(v.skip(1));
                                    assert(node.has_child(c));
                                    assert(false);
                                }
                            }
                        }
                    }
                    k = k + 1;
                }
                proof {
                    assert(letterbox.side(i as int).subrange(0, m as int) =~= letterbox.side(
                        i as int));
                    assert forall|w: Seq<char>|
                        #[trigger] emits_via_side_upto(*letterbox, *node, curr_word@, i as int,
                            m as int, w) <==> emits_via_side(*letterbox, *node, curr_word@,
                            i as int, w) by {}
                    assert forall|w: Seq<char>|
                        #[trigger] word_list_has(words@, w) <==> ((node.is_end && w == curr_word@)
                            || (exists|s: int|
                            0 <= s < i + 1 && s != idx && #[trigger] emits_via_side(*letterbox,
                                *node, curr_word@, s, w))) by {
                        if word_list_has(words@, w) && !(node.is_end && w == curr_word@) {
                            if exists|s: int|
                                0 <= s < i && s != idx && #[trigger] emits_via_side(*letterbox,
                                    *node, curr_word@, s, w) {
                                let s = choose|s: int|
                                    0 <= s < i && s != idx && #[trigger] emits_via_side(
                                        *letterbox, *node, curr_word@, s, w);
                                assert(0 <= s < i + 1 && s != idx && emits_via_side(*letterbox,
                                    *node, curr_word@, s, w));
                            } else {
                                assert(emits_via_side_upto(*letterbox, *node, curr_word@,
                                    i as int, m as int, w));
                                assert(0 <= i < i + 1 && i != idx && emits_via_side(*letterbox,
                                    *node, curr_word@, i as int, w));
                            }
                        }
                        if exists|s: int|
                            0 <= s < i + 1 && s != idx && #[trigger] emits_via_side(*letterbox,
                                *node, curr_word@, s, w) {
                            let s = choose|s: int|
                                0 <= s < i + 1 && s != idx && #[trigger] emits_via_side(
                                    *letterbox, *node, curr_word@, s, w);
                            if s < i {
                                assert(word_list_has(words@, w));
                            } else {
                                assert(s == i);
                                assert(emits_via_side_upto(*letterbox, *node, curr_word@,
                                    i as int, m as int, w));
                                assert(word_list_has(words@, w));
                            }
                        }
                    }
                }
            } else {
                proof {
                    assert forall|w: Seq<char>|
                        #[trigger] word_list_has(words@, w) <==> ((node.is_end && w == curr_word@)
                            || (exists|s: int|
                            0 <= s < i + 1 && s != idx && #[trigger] emits_via_side(*letterbox,
                                *node, curr_word@, s, w))) by {
                        if exists|s: int|
                            0 <= s < i + 1 && s != idx && #[trigger] emits_via_side(*letterbox,
                                *node, curr_word@, s, w) {
                            let s = choose|s: int|
                                0 <= s < i + 1 && s != idx && #[trigger] emits_via_side(
                                    *letterbox, *node, curr_word@, s, w);
                            assert(s < i);
                        }
                        if exists|s: int|
                            0 <= s < i && s != idx && #[trigger] emits_via_side(*letterbox,
                                *node, curr_word@, s, w) {
                            let s = choose|s: int|
                                0 <= s < i && s != idx && #[trigger] emits_via_side(*letterbox,
                                    *node, curr_word@, s, w);
                            assert(0 <= s < i + 1 && s != idx && emits_via_side(*letterbox,
                                *node, curr_word@, s, w));
                        }
                    }
                }
            }
            i = i + 1;
        }
        proof {
            lemma_collect_sides(*letterbox, *node, curr_word@, idx as int);
        }
        words
    }
}

/// A word equals a suffix of `cs` exactly when it starts with the right
/// character and its tail equals the next shorter suffix.
proof fn lemma_cons_skip(cs: Seq<char>, i: int, w: Seq<char>)
    requires
        0 <= i < cs.len(),
    ensures
        (w.len() > 0 && w[0] == cs[i] && w.skip(1) == cs.skip(i + 1)) <==> w == cs.skip(i),
{
    if w.len() > 0 && w[0] == cs[i] && w.skip(1) == cs.skip(i + 1) {
        assert forall|k: int| 0 <= k < w.len() implies w[k] == cs.skip(i)[k] by {
            if k > 0 {
                assert(w[k] == w.skip(1)[k - 1]);
                assert(cs.skip(i + 1)[k - 1] == cs[i + k]);
            }
        }
        assert(w =~= cs.skip(i));
    }
    if w == cs.skip(i) {
        assert(w.skip(1) =~= cs.skip(i + 1));
    }
}


/// Finds the index of the child edge carrying `c`, if any.
fn find_child(node: &TrieNode, c: char) -> (r: Option<usize>)
    ensures
        match r {
            Some(j) => j < node.children@.len() && node.children@[j as int].0 == c,
            None => !node.has_child(c),
        },
{
    let n = node.children.len();
    for j in 0..n
        invariant
            n == node.children@.len(),
            forall|m: int| 0 <= m < j ==> (#[trigger] node.children@[m]).0 != c,
    {
        if node.children[j].0 == c {
            return Some(j);
        }
    }
    None
}

/// Walks the tree along `cs[i..]` and reports whether it ends at a
/// word-end node.
fn lookup(node: &TrieNode, cs: &Vec<char>, i: usize) -> (r: bool)
    requires
        node.wf(),
        i <= cs.len(),
    ensures
        r == node.has_word(cs@.skip(i as int)),
    decreases cs.len() - i,
{
    let ghost w = cs@.skip(i as int);
    if i == cs.len() {
        proof {
            assert(w =~= Seq::<char>::empty());
        }
        node.is_end
    } else {
        let c = cs[i];
        let fc = find_child(node, c);
        proof {
            assert(w.len() > 0 && w[0] == c);
        }
        if fc.is_none() {
            proof {
                assert(!node.has_word(w));
            }
            false
        } else {
            let j = fc.unwrap();
            proof {
                assert(node.children@[j as int].1.wf());
            }
            let r = lookup(&node.children[j].1, cs, i + 1);
            proof {
                assert(w.skip(1) =~= cs@.skip(i + 1 as int));
                if node.has_word(w) {
                    let m = choose|m: int|
                        0 <= m < node.children@.len() && (#[trigger] node.children@[m]).0 == w[0]
                            && node.children@[m].1.has_word(w.skip(1));
                    assert(m == j);
                }
                if node.children@[j as int].1.has_word(w.skip(1)) {
                    assert(node.has_word(w));
                }
            }
            r
        }
    }
}

/// Builds the chain of nodes spelling `cs[k..]`, whose entry edge carries
/// `cs[k - 1]`; exactly that one suffix is a word of the chain.
fn chain_node(cs: &Vec<char>, k: usize) -> (node: TrieNode)
    requires
        1 <= k <= cs.len(),
    ensures
        node.wf(),
        forall|w: Seq<char>| node.has_word(w) <==> w == cs@.skip(k as int),
    decreases cs.len() - k,
{
    let ghost suffix = cs@.skip(k as int);
    let mut node = TrieNode::new(Some(cs[k - 1]), k == cs.len());
    if k == cs.len() {
        proof {
            assert(suffix =~= Seq::<char>::empty());
            assert forall|w: Seq<char>| node.has_word(w) <==> w == suffix by {
                if w.len() == 0 {
                    assert(w =~= suffix);
                }
            }
        }
    } else {
        let sub = chain_node(cs, k + 1);
        node.children.push((cs[k], sub));
        proof {
            assert(node.children@.len() == 1);
            assert(node.children@[0].0 == cs@[k as int]);
            assert(node.children@[0].1 == sub);
            assert forall|w: Seq<char>| node.has_word(w) <==> w == suffix by {
                lemma_cons_skip(cs@, k as int, w);
                if w.len() == 0 {
                    assert(!node.has_word(w));
                    assert(w != suffix);
                } else {
                    assert(node.has_word(w) <==> (node.children@[0].0 == w[0]
                        && node.children@[0].1.has_word(w.skip(1))));
                }
            }
        }
    }
    node
}

/// Adds the suffix `cs[i..]` below `node`: afterwards the words of `node`
/// are exactly the old ones plus that suffix.
#[verifier::rlimit(100)]
fn insert_at(node: &mut TrieNode, cs: &Vec<char>, i: usize)
    requires
        old(node).wf(),
        i <= cs.len(),
    ensures
        final(node).wf(),
        final(node).value == old(node).value,
        forall|w: Seq<char>|
            final(node).has_word(w) <==> (old(node).has_word(w) || w == cs@.skip(i as int)),
    decreases cs.len() - i,
{
    let ghost suffix = cs@.skip(i as int);
    if i == cs.len() {
        node.is_end = true;
        proof {
            assert(suffix =~= Seq::<char>::empty());
            assert forall|w: Seq<char>|
                node.has_word(w) <==> (old(node).has_word(w) || w == suffix) by {
                if w.len() == 0 {
                    assert(w =~= suffix);
                }
            }
        }
    } else {
        let c = cs[i];
        let fc = find_child(node, c);
        if fc.is_some() {
            let j = fc.unwrap();
            let ghost oldch = node.children@;
            let mut entry = node.children.swap_remove(j);
            let ghost mid = node.children@;
            let ghost old_child = entry.1;
            proof {
                assert(entry == oldch[j as int]);
                assert(oldch[j as int].1.wf());
            }
            insert_at(&mut entry.1, cs, i + 1);
            node.children.push(entry);
            proof {
                let jj = j as int;
                assert(oldch[jj].0 == c);
                assert(mid == oldch.update(jj, oldch.last()).drop_last());
                let last = node.children@.len() - 1;
                assert(node.children@ == mid.push((c, entry.1)));
                // every middle slot holds some old child other than slot j
                assert forall|m: int| 0 <= m < mid.len() implies exists|m2: int|
                    0 <= m2 < oldch.len() && m2 != jj && #[trigger] mid[m] == oldch[m2] by {
                    if m == jj {
                        assert(mid[m] == oldch[oldch.len() - 1]);
                        assert(oldch.len() - 1 != jj);
                    } else {
                        assert(mid[m] == oldch[m]);
                    }
                }
                // and every old child other than slot j sits in some middle slot
                assert forall|m2: int| 0 <= m2 < oldch.len() && m2 != jj implies exists|m: int|
                    0 <= m < mid.len() && mid[m] == #[trigger] oldch[m2] by {
                    if m2 == oldch.len() - 1 {
                        assert(mid[jj] == oldch[m2]);
                    } else {
                        assert(mid[m2] == oldch[m2]);
                    }
                }
                // well-formedness: distinct characters, well-formed children
                assert forall|a: int, b: int|
                    0 <= a < b < node.children@.len() implies (#[trigger] node.children@[a]).0
                    != (#[trigger] node.children@[b]).0 by {
                    if b < last {
                        let a2 = choose|a2: int|
                            0 <= a2 < oldch.len() && a2 != jj && mid[a] == oldch[a2];
                        let b2 = choose|b2: int|
                            0 <= b2 < oldch.len() && b2 != jj && mid[b] == oldch[b2];
                        assert(a2 != b2) by {
                            if a2 == b2 {
                                assert(mid[a] == mid[b]);
                                assert(mid.len() < oldch.len());
                            }
                        }
                    } else {
                        let a2 = choose|a2: int|
                            0 <= a2 < oldch.len() && a2 != jj && mid[a] == oldch[a2];
                        assert(oldch[a2].0 != oldch[jj].0);
                    }
                }
                assert forall|a: int|
                    0 <= a < node.children@.len() implies (#[trigger] node.children@[a].1).wf() by {
                    if a < last {
                        let a2 = choose|a2: int|
                            0 <= a2 < oldch.len() && a2 != jj && mid[a] == oldch[a2];
                        assert(oldch[a2].1.wf());
                    }
                }
                assert(node.wf());
                // word set: old words plus the new suffix
                assert forall|w: Seq<char>|
                    node.has_word(w) <==> (old(node).has_word(w) || w == suffix) by {
                    lemma_cons_skip(cs@, i as int, w);
                    if w.len() == 0 {
                        assert(node.has_word(w) == node.is_end);
                        assert(w != suffix);
                    } else if w[0] != c {
                        assert(w != suffix);
                        if node.has_word(w) {
                            let m = choose|m: int|
                                0 <= m < node.children@.len() && (#[trigger] node.children@[m]).0 == w[0]
                                    && node.children@[m].1.has_word(w.skip(1));
                            assert(m < last);
                            let m2 = choose|m2: int|
                                0 <= m2 < oldch.len() && m2 != jj && mid[m] == oldch[m2];
                            assert(oldch[m2].0 == w[0] && oldch[m2].1.has_word(w.skip(1)));
                            assert(old(node).has_word(w));
                        }
                        if old(node).has_word(w) {
                            let m2 = choose|m2: int|
                                0 <= m2 < oldch.len() && (#[trigger] oldch[m2]).0 == w[0]
                                    && oldch[m2].1.has_word(w.skip(1));
                            assert(m2 != jj);
                            let m = choose|m: int| 0 <= m < mid.len() && mid[m] == oldch[m2];
                            assert(node.children@[m].0 == w[0]
                                && node.children@[m].1.has_word(w.skip(1)));
                            assert(node.has_word(w));
                        }
                    } else {
                        // w starts with c: only the replaced child is relevant
                        assert(node.children@[last].0 == c);
                        if node.has_word(w) {
                            let m = choose|m: int|
                                0 <= m < node.children@.len() && (#[trigger] node.children@[m]).0 == w[0]
                                    && node.children@[m].1.has_word(w.skip(1));
                            assert(m == last) by {
                                if m < last {
                                    let m2 = choose|m2: int|
                                        0 <= m2 < oldch.len() && m2 != jj && mid[m] == oldch[m2];
                                    assert(oldch[m2].0 == c && oldch[jj].0 == c);
                                }
                            }
                            assert(entry.1.has_word(w.skip(1)));
                        }
                        if old(node).has_word(w) {
                            let m2 = choose|m2: int|
                                0 <= m2 < oldch.len() && (#[trigger] oldch[m2]).0 == w[0]
                                    && oldch[m2].1.has_word(w.skip(1));
                            assert(m2 == jj);
                            assert(old_child.has_word(w.skip(1)));
                        }
                        assert(old_child.has_word(w.skip(1)) ==> old(node).has_word(w));
                        assert(entry.1.has_word(w.skip(1)) ==> node.has_word(w));
                        assert(w.skip(1) == cs@.skip(i + 1) <==> w == suffix);
                        assert(entry.1.has_word(w.skip(1)) <==> (old_child.has_word(w.skip(1))
                            || w.skip(1) == cs@.skip(i + 1)));
                    }
                }
            }
        } else {
            let sub = chain_node(cs, i + 1);
            node.children.push((c, sub));
            proof {
                let last = node.children@.len() - 1;
                let ghost oldch = old(node).children@;
                assert(node.children@ == oldch.push((c, sub)));
                assert forall|m: int| 0 <= m < oldch.len() implies (#[trigger] node.children@[
                    m]) == oldch[m] by {}
                assert(node.wf());
                assert forall|w: Seq<char>|
                    node.has_word(w) <==> (old(node).has_word(w) || w == suffix) by {
                    lemma_cons_skip(cs@, i as int, w);
                    if w.len() == 0 {
                        assert(w != suffix);
                    } else if w[0] != c {
                        assert(w != suffix);
                        if node.has_word(w) {
                            let m = choose|m: int|
                                0 <= m < node.children@.len() && (#[trigger] node.children@[m]).0 == w[0]
                                    && node.children@[m].1.has_word(w.skip(1));
                            assert(m < last);
                            assert(old(node).has_word(w));
                        }
                        if old(node).has_word(w) {
                            let m = choose|m: int|
                                0 <= m < oldch.len() && (#[trigger] oldch[m]).0 == w[0]
                                    && oldch[m].1.has_word(w.skip(1));
                            assert(node.children@[m].0 == w[0]
                                && node.children@[m].1.has_word(w.skip(1)));
                            assert(node.has_word(w));
                        }
                    } else {
                        if old(node).has_word(w) {
                            let m = choose|m: int|
                                0 <= m < oldch.len() && (#[trigger] oldch[m]).0 == w[0]
                                    && oldch[m].1.has_word(w.skip(1));
                        }
                        assert(!old(node).has_word(w));
                        if node.has_word(w) {
                            let m = choose|m: int|
                                0 <= m < node.children@.len() && (#[trigger] node.children@[m]).0 == w[0]
                                    && node.children@[m].1.has_word(w.skip(1));
                            assert(m == last);
                            assert(sub.has_word(w.skip(1)));
                        }
                        if sub.has_word(w.skip(1)) {
                            assert(node.children@[last] == (c, sub));
                            assert((#[trigger] node.children@[last]).0 == w[0]
                                && node.children@[last].1.has_word(w.skip(1)));
                            assert(node.has_word(w));
                        }
                        assert(node.has_word(w) <==> w.skip(1) == cs@.skip(i + 1));
                        assert(w.skip(1) == cs@.skip(i + 1) <==> w == suffix);
                    }
                }
            }
        }
    }
}

/// Relies on `String::push` from std: it appends exactly the given
/// character at the end of the string.
pub assume_specification[ String::push ](s: &mut String, c: char)
    ensures
        final(s)@ == old(s)@.push(c),
;

/// The helper emits `w` below `node`: `w` extends `curr` by a word of the
/// subtree that is legal when the previous character came from side `idx`.
pub open spec fn emits_below(lb: LetterBox, node: TrieNode, curr: Seq<char>, idx: int, w: Seq<char>) -> bool {
    exists|v: Seq<char>|
        w == curr + v && #[trigger] node.has_word(v) && lb.legal_from(v, idx)
}

/// As `emits_below`, but the walk's first step uses side `s`.
pub open spec fn emits_via_side(lb: LetterBox, node: TrieNode, curr: Seq<char>, s: int, w: Seq<char>) -> bool {
    exists|v: Seq<char>|
        w == curr + v && v.len() > 0 && lb.side(s).contains(v[0]) && #[trigger] node.has_word(v)
            && lb.legal_from(v.skip(1), s)
}

/// As `emits_via_side`, but the first character comes from the first `k`
/// positions of side `s`.
pub open spec fn emits_via_side_upto(lb: LetterBox, node: TrieNode, curr: Seq<char>, s: int, k: int, w: Seq<char>) -> bool {
    exists|v: Seq<char>|
        w == curr + v && v.len() > 0 && lb.side(s).subrange(0, k).contains(v[0])
            && #[trigger] node.has_word(v) && lb.legal_from(v.skip(1), s)
}

/// The words the helper emits below the child reached by `c` are exactly
/// the words of `node` that continue `curr` with `c`.
proof fn lemma_descend(lb: LetterBox, node: TrieNode, curr: Seq<char>, c: char, j: int, s: int)
    requires
        node.wf(),
        0 <= j < node.children@.len(),
        node.children@[j].0 == c,
    ensures
        forall|w: Seq<char>|
            #[trigger] emits_below(lb, node.children@[j].1, curr.push(c), s, w) <==> (exists|
                v: Seq<char>,
            |
                w == curr + v && v.len() > 0 && v[0] == c && #[trigger] node.has_word(v)
                    && lb.legal_from(v.skip(1), s)),
{
    let child = node.children@[j].1;
    assert forall|w: Seq<char>|
        #[trigger] emits_below(lb, child, curr.push(c), s, w) <==> (exists|v: Seq<char>|
            w == curr + v && v.len() > 0 && v[0] == c && #[trigger] node.has_word(v)
                && lb.legal_from(v.skip(1), s)) by {
        if emits_below(lb, child, curr.push(c), s, w) {
            let v2 = choose|v2: Seq<char>|
                w == curr.push(c) + v2 && #[trigger] child.has_word(v2) && lb.legal_from(v2, s);
            let v = seq![c] + v2;
            assert(v.len() > 0 && v[0] == c);
            assert(v.skip(1) =~= v2);
            assert(curr + v =~= curr.push(c) + v2);
            assert((#[trigger] node.children@[j]).0 == v[0]
                && node.children@[j].1.has_word(v.skip(1)));
            assert(node.has_word(v));
            assert(w == curr + v && v.len() > 0 && v[0] == c && node.has_word(v)
                && lb.legal_from(v.skip(1), s));
        }
        if exists|v: Seq<char>|
            w == curr + v && v.len() > 0 && v[0] == c && #[trigger] node.has_word(v)
                && lb.legal_from(v.skip(1), s) {
            let v = choose|v: Seq<char>|
                w == curr + v && v.len() > 0 && v[0] == c && #[trigger] node.has_word(v)
                    && lb.legal_from(v.skip(1), s);
            let m = choose|m: int|
                0 <= m < node.children@.len() && (#[trigger] node.children@[m]).0 == v[0]
                    && node.children@[m].1.has_word(v.skip(1));
            assert(m == j);
            let v2 = v.skip(1);
            assert(curr.push(c) + v2 =~= curr + v);
            assert(child.has_word(v2) && lb.legal_from(v2, s));
            assert(emits_below(lb, child, curr.push(c), s, w));
        }
    }
}

/// Taking one more character of side `s` into account adds exactly the
/// words whose walk starts with that character.
proof fn lemma_upto_extend(lb: LetterBox, node: TrieNode, curr: Seq<char>, s: int, k: int, c: char)
    requires
        0 <= k < lb.side(s).len(),
        lb.side(s)[k] == c,
    ensures
        forall|w: Seq<char>|
            #[trigger] emits_via_side_upto(lb, node, curr, s, k + 1, w) <==> (emits_via_side_upto(
                lb, node, curr, s, k, w) || (exists|v: Seq<char>|
                w == curr + v && v.len() > 0 && v[0] == c
                    && #[trigger] node.has_word(v) && lb.legal_from(v.skip(1), s))),
{
    assert(lb.side(s).subrange(0, k + 1) =~= lb.side(s).subrange(0, k).push(c));
    assert forall|x: char|
        #[trigger] lb.side(s).subrange(0, k + 1).contains(x) <==> (lb.side(s).subrange(0,
            k).contains(x) || x == c) by {
        if lb.side(s).subrange(0, k).contains(x) {
            let m = choose|m: int|
                0 <= m < lb.side(s).subrange(0, k).len() && lb.side(s).subrange(0, k)[m] == x;
            assert(lb.side(s).subrange(0, k + 1)[m] == x);
        }
        if x == c {
            assert(lb.side(s).subrange(0, k + 1)[k] == x);
        }
    }
    assert forall|w: Seq<char>|
        #[trigger] emits_via_side_upto(lb, node, curr, s, k + 1, w) <==> (emits_via_side_upto(lb,
            node, curr, s, k, w) || (exists|v: Seq<char>|
            w == curr + v && v.len() > 0 && v[0] == c && #[trigger] node.has_word(v)
                && lb.legal_from(v.skip(1), s))) by {
        if emits_via_side_upto(lb, node, curr, s, k + 1, w) {
            let v = choose|v: Seq<char>|
                w == curr + v && v.len() > 0 && lb.side(s).subrange(0, k + 1).contains(v[0])
                    && #[trigger] node.has_word(v) && lb.legal_from(v.skip(1), s);
            if lb.side(s).subrange(0, k).contains(v[0]) {
                assert(emits_via_side_upto(lb, node, curr, s, k, w));
            } else {
                assert(v[0] == c);
            }
        }
        if emits_via_side_upto(lb, node, curr, s, k, w) {
            let v = choose|v: Seq<char>|
                w == curr + v && v.len() > 0 && lb.side(s).subrange(0, k).contains(v[0])
                    && #[trigger] node.has_word(v) && lb.legal_from(v.skip(1), s);
            assert(emits_via_side_upto(lb, node, curr, s, k + 1, w));
        }
        if exists|v: Seq<char>|
            w == curr + v && v.len() > 0 && v[0] == c && #[trigger] node.has_word(v)
                && lb.legal_from(v.skip(1), s) {
            let v = choose|v: Seq<char>|
                w == curr + v && v.len() > 0 && v[0] == c && #[trigger] node.has_word(v)
                    && lb.legal_from(v.skip(1), s);
            assert(lb.side(s).subrange(0, k + 1).contains(v[0]));
            assert(emits_via_side_upto(lb, node, curr, s, k + 1, w));
        }
    }
}

/// The union of the per-side emissions is exactly the helper's contract.
proof fn lemma_collect_sides(lb: LetterBox, node: TrieNode, curr: Seq<char>, idx: int)
    ensures
        forall|w: Seq<char>|
            ((node.is_end && w == curr) || (exists|s: int|
                0 <= s < 4 && s != idx && #[trigger] emits_via_side(lb, node, curr, s, w))) <==> #[trigger] emits_below(
                lb, node, curr, idx, w),
{
    assert forall|w: Seq<char>|
        ((node.is_end && w == curr) || (exists|s: int|
            0 <= s < 4 && s != idx && #[trigger] emits_via_side(lb, node, curr, s, w)))
            <==> #[trigger] emits_below(lb, node, curr, idx, w) by {
        if node.is_end && w == curr {
            let v = Seq::<char>::empty();
            assert(curr + v =~= curr);
            assert(node.has_word(v) && lb.legal_from(v, idx));
            assert(emits_below(lb, node, curr, idx, w));
        }
        if exists|s: int| 0 <= s < 4 && s != idx && #[trigger] emits_via_side(lb, node, curr, s, w) {
            let s = choose|s: int|
                0 <= s < 4 && s != idx && #[trigger] emits_via_side(lb, node, curr, s, w);
            let v = choose|v: Seq<char>|
                w == curr + v && v.len() > 0 && lb.side(s).contains(v[0])
                    && #[trigger] node.has_word(v) && lb.legal_from(v.skip(1), s);
            assert(lb.legal_from(v, idx));
            assert(emits_below(lb, node, curr, idx, w));
        }
        if emits_below(lb, node, curr, idx, w) {
            let v = choose|v: Seq<char>|
                w == curr + v && #[trigger] node.has_word(v) && lb.legal_from(v, idx);
            if v.len() == 0 {
                assert(curr + v =~= curr);
                assert(node.is_end && w == curr);
            } else {
                let s = choose|s: int|
                    0 <= s < 4 && s != idx && (#[trigger] lb.side(s)).contains(v[0])
                        && lb.legal_from(v.skip(1), s);
                assert(emits_via_side(lb, node, curr, s, w));
            }
        }
    }
}

/// The words of the list that are at least three characters long: the
/// ones the lexicon keeps.
pub open spec fn kept_words(ws: Seq<String>) -> Set<Seq<char>> {
    Set::new(|w: Seq<char>| word_list_has(ws, w) && w.len() >= 3)
}

/// Builds the lexicon from a word list, inserting each entry verbatim but
/// skipping entries shorter than three characters.
#[verifier::loop_isolation(false)]
pub fn build_trie(word_list: &Vec<String>) -> (t: Trie)
    ensures
        t.wf(),
        t@ == kept_words(word_list@),
{
    let mut t = Trie::new();
    let n = word_list.len();
    for k in 0..n
        invariant
            t.wf(),
            t@ == kept_words(word_list@.subrange(0, k as int)),
    {
        let ghost pre = t@;
        let w = &word_list[k];
        if w.as_str().unicode_len() >= 3 {
            t.insert(w.clone());
        }
        proof {
            lemma_word_list_split(word_list@.subrange(0, k as int), seq![word_list@[k as int]]);
            assert(word_list@.subrange(0, k + 1 as int) =~= word_list@.subrange(0, k as int)
                + seq![word_list@[k as int]]);
            assert forall|u: Seq<char>|
                t@.contains(u) <==> kept_words(word_list@.subrange(0, k + 1 as int)).contains(
                    u) by {
                assert(word_list_has(word_list@.subrange(0, k as int) + seq![word_list@[
                    k as int]], u) <==> (word_list_has(word_list@.subrange(0, k as int), u)
                    || word_list_has(seq![word_list@[k as int]], u)));
                assert(word_list_has(word_list@.subrange(0, k + 1 as int), u)
                    == word_list_has(word_list@.subrange(0, k as int) + seq![word_list@[
                    k as int]], u));
                assert(pre.contains(u) == kept_words(word_list@.subrange(0, k as int)).contains(
                    u));
                if word_list_has(seq![word_list@[k as int]], u) {
                    let z = choose|z: int|
                        0 <= z < 1 && (#[trigger] seq![word_list@[k as int]][z])@ == u;
                    assert(u == word_list@[k as int]@);
                }
                if u == word_list@[k as int]@ {
                    assert((#[trigger] seq![word_list@[k as int]][0])@ == u);
                    assert(word_list_has(seq![word_list@[k as int]], u));
                }
            }
            assert(t@ =~= kept_words(word_list@.subrange(0, k + 1 as int)));
        }
    }
    proof {
        assert(word_list@.subrange(0, n as int) =~= word_list@);
        assert(t@ =~= kept_words(word_list@));
    }
    t
}

/// After a word is inserted, the lexicon contains it; a strict prefix of
/// it that was never itself inserted is still absent.
pub proof fn lemma_insert_keeps_prefixes_out(words: Set<Seq<char>>, w: Seq<char>, p: Seq<char>)
    requires
        p.len() < w.len(),
        p == w.take(p.len() as int),
        !words.contains(p),
    ensures
        words.insert(w).contains(w),
        !words.insert(w).contains(p),
{
    assert(p.len() != w.len());
}

} // verus!
