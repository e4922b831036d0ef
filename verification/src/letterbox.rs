//! The puzzle frame: four sides of letters.

use vstd::prelude::*;

verus! {

broadcast use vstd::seq_lib::lemma_seq_contains_after_push;

/// The four-sided puzzle frame.  Each side is an ordered sequence of
/// characters (normally three), and `letters` collects the distinct
/// characters appearing on any side.
pub struct LetterBox {
    pub top: Vec<char>,
    pub bottom: Vec<char>,
    pub left: Vec<char>,
    pub right: Vec<char>,
    pub letters: Vec<char>,
}

impl LetterBox {
    /// The characters of side `i`, with the sides numbered
    /// top, bottom, left, right.
    pub open spec fn side(self, i: int) -> Seq<char> {
        if i == 0 {
            self.top@
        } else if i == 1 {
            self.bottom@
        } else if i == 2 {
            self.left@
        } else {
            self.right@
        }
    }

    /// The set of characters appearing on some side of the frame.
    pub open spec fn letter_set(self) -> Set<char> {
        Set::new(
            |c: char|
                exists|i: int, k: int|
                    0 <= i < 4 && 0 <= k < self.side(i).len() && self.side(i)[k] == c,
        )
    }

    /// A well-formed frame lists each distinct letter exactly once in
    /// `letters`.
    pub open spec fn wf(self) -> bool {
        &&& self.letters@.no_duplicates()
        &&& self.letters@.to_set() == self.letter_set()
    }

    /// The word suffix `v` can be spelled by stepping between sides of the
    /// frame, never taking two characters in a row from one side, where the
    /// previous character came from side `prev` (or `prev` is -1 at the
    /// start of a word).
    pub open spec fn legal_from(self, v: Seq<char>, prev: int) -> bool
        decreases v.len(),
    {
        v.len() == 0 || exists|s: int|
            0 <= s < 4 && s != prev && (#[trigger] self.side(s)).contains(v[0])
                && self.legal_from(v.skip(1), s)
    }

    /// The word `w` respects the frame: every character lies on some side
    /// and no two consecutive characters come from the same side.
    pub open spec fn legal_word(self, w: Seq<char>) -> bool {
        self.legal_from(w, -1)
    }

    /// Builds a frame from the four side strings, collecting the distinct
    /// letters across all sides.
    pub fn new(top: &String, bottom: &String, left: &String, right: &String) -> (lb: LetterBox)
        ensures
            lb.top@ == top@,
            lb.bottom@ == bottom@,
            lb.left@ == left@,
            lb.right@ == right@,
            lb.wf(),
    {
        let top_v = chars_of(top.as_str());
        let bottom_v = chars_of(bottom.as_str());
        let left_v = chars_of(left.as_str());
        let right_v = chars_of(right.as_str());
        let mut letters: Vec<char> = Vec::new();
        let ghost l0 = letters@;
        add_distinct(&mut letters, &top_v);
        let ghost l1 = letters@;
        add_distinct(&mut letters, &bottom_v);
        let ghost l2 = letters@;
        add_distinct(&mut letters, &left_v);
        let ghost l3 = letters@;
        add_distinct(&mut letters, &right_v);
        let lb = LetterBox { top: top_v, bottom: bottom_v, left: left_v, right: right_v, letters };
        proof {
            let ghost all = l0.to_set().union(lb.top@.to_set()).union(lb.bottom@.to_set()).union(
                lb.left@.to_set()).union(lb.right@.to_set());
            assert(lb.letters@.to_set() == all);
            assert forall|c: char| lb.letters@.to_set().contains(c)
                <==> lb.letter_set().contains(c) by {
                assert(all.contains(c) <==> (lb.top@.contains(c) || lb.bottom@.contains(c)
                    || lb.left@.contains(c) || lb.right@.contains(c)));
                if lb.letter_set().contains(c) {
                    let (i, k) = choose|i: int, k: int|
                        0 <= i < 4 && 0 <= k < lb.side(i).len() && lb.side(i)[k] == c;
                    if i == 0 {
                        assert(lb.top@.contains(c));
                    } else if i == 1 {
                        assert(lb.bottom@.contains(c));
                    } else if i == 2 {
                        assert(lb.left@.contains(c));
                    } else {
                        assert(lb.right@.contains(c));
                    }
                }
                if lb.letters@.to_set().contains(c) {
                    if lb.top@.contains(c) {
                        let k = choose|k: int| 0 <= k < lb.top@.len() && lb.top@[k] == c;
                        assert(0 <= 0 < 4 && 0 <= k < lb.side(0).len() && lb.side(0)[k] == c);
                    } else if lb.bottom@.contains(c) {
                        let k = choose|k: int| 0 <= k < lb.bottom@.len() && lb.bottom@[k] == c;
                        assert(0 <= 1 < 4 && 0 <= k < lb.side(1).len() && lb.side(1)[k] == c);
                    } else if lb.left@.contains(c) {
                        let k = choose|k: int| 0 <= k < lb.left@.len() && lb.left@[k] == c;
                        assert(0 <= 2 < 4 && 0 <= k < lb.side(2).len() && lb.side(2)[k] == c);
                    } else {
                        let k = choose|k: int| 0 <= k < lb.right@.len() && lb.right@[k] == c;
                        assert(0 <= 3 < 4 && 0 <= k < lb.side(3).len() && lb.side(3)[k] == c);
                    }
                    assert(lb.letter_set().contains(c));
                }
            }
            assert(lb.letters@.to_set() =~= lb.letter_set());
        }
        lb
    }
}

/// Collects the characters of a string slice into a vector.
pub fn chars_of(s: &str) -> (v: Vec<char>)
    ensures
        v@ == s@,
{
    let n = s.unicode_len();
    let mut v: Vec<char> = Vec::new();
    for i in 0..n
        invariant
            n == s@.len(),
            v@ == s@.subrange(0, i as int),
    {
        v.push(s.get_char(i));
        assert(v@ =~= s@.subrange(0, i + 1 as int));
    }
    assert(v@ =~= s@);
    v
}

/// Appends to `acc` each character of `src` not already present, keeping
/// `acc` free of duplicates.
pub fn add_distinct(acc: &mut Vec<char>, src: &Vec<char>)
    requires
        old(acc)@.no_duplicates(),
    ensures
        final(acc)@.no_duplicates(),
        final(acc)@.to_set() == old(acc)@.to_set().union(src@.to_set()),
{
    let n = src.len();
    for i in 0..n
        invariant
            n == src@.len(),
            acc@.no_duplicates(),
            forall|c: char|
                acc@.contains(c) <==> (old(acc)@.contains(c)
                    || src@.subrange(0, i as int).contains(c)),
    {
        let c = src[i];
        let mut found = false;
        let m = acc.len();
        for k in 0..m
            invariant
                m == acc@.len(),
                found ==> acc@.contains(c),
                !found ==> forall|j: int| 0 <= j < k ==> acc@[j] != c,
        {
            if acc[k] == c {
                found = true;
            }
        }
        let ghost pre = acc@;
        if !found {
            assert(!pre.contains(c));
            acc.push(c);
            assert(forall|d: char| acc@.contains(d) <==> (pre.contains(d) || d == c));
        }
        assert forall|d: char|
            acc@.contains(d) <==> (old(acc)@.contains(d)
                || src@.subrange(0, i + 1 as int).contains(d)) by {
            assert(src@.subrange(0, i + 1 as int) =~= src@.subrange(0, i as int).push(
                src@[i as int]));
            assert(src@.subrange(0, i + 1 as int).contains(d) <==> (src@.subrange(0,
                i as int).contains(d) || d == src@[i as int]));
        }
    }
    assert(src@.subrange(0, n as int) =~= src@);
    assert(acc@.to_set() =~= old(acc)@.to_set().union(src@.to_set()));
}

/// A word is legal for the frame exactly when it is legal from some
/// starting side: launching the walk from each of the four sides in turn
/// covers every legal word.
pub proof fn lemma_legal_word_start(lb: LetterBox, w: Seq<char>)
    ensures
        lb.legal_word(w) <==> exists|i: int| 0 <= i < 4 && #[trigger] lb.legal_from(w, i),
{
    if lb.legal_word(w) {
        if w.len() == 0 {
            assert(lb.legal_from(w, 0));
        } else {
            let s = choose|s: int|
                0 <= s < 4 && s != -1 && (#[trigger] lb.side(s)).contains(w[0])
                    && lb.legal_from(w.skip(1), s);
            let i: int = if s == 0 { 1 } else { 0 };
            assert(0 <= s < 4 && s != i && lb.side(s).contains(w[0])
                && lb.legal_from(w.skip(1), s));
            assert(lb.legal_from(w, i));
        }
    }
    if exists|i: int| 0 <= i < 4 && #[trigger] lb.legal_from(w, i) {
        let i = choose|i: int| 0 <= i < 4 && #[trigger] lb.legal_from(w, i);
        if w.len() > 0 {
            let s = choose|s: int|
                0 <= s < 4 && s != i && (#[trigger] lb.side(s)).contains(w[0])
                    && lb.legal_from(w.skip(1), s);
            assert(0 <= s < 4 && s != -1 && lb.side(s).contains(w[0])
                && lb.legal_from(w.skip(1), s));
        }
        assert(lb.legal_word(w));
    }
}

/// An assignment of a frame side to each position of the word: every
/// character lies on its assigned side, and consecutive characters are
/// assigned different sides.
pub open spec fn side_assignment_ok(lb: LetterBox, w: Seq<char>, sides: Seq<int>) -> bool {
    &&& sides.len() == w.len()
    &&& (forall|k: int|
        0 <= k < w.len() ==> 0 <= #[trigger] sides[k] < 4 && lb.side(sides[k]).contains(w[k]))
    &&& (forall|k: int| 0 <= k < w.len() - 1 ==> sides[k] != #[trigger] sides[k + 1])
}

/// A word that is legal from `prev` admits a side assignment whose first
/// side differs from `prev`.
proof fn lemma_legal_from_assignment(lb: LetterBox, w: Seq<char>, prev: int)
    requires
        lb.legal_from(w, prev),
    ensures
        exists|sides: Seq<int>|
            #[trigger] side_assignment_ok(lb, w, sides) && (w.len() > 0 ==> sides[0] != prev),
    decreases w.len(),
{
    if w.len() == 0 {
        let sides = Seq::<int>::empty();
        assert(side_assignment_ok(lb, w, sides));
    } else {
        let s = choose|s: int|
            0 <= s < 4 && s != prev && (#[trigger] lb.side(s)).contains(w[0]) && lb.legal_from(
                w.skip(1), s);
        lemma_legal_from_assignment(lb, w.skip(1), s);
        let rest = choose|rest: Seq<int>|
            #[trigger] side_assignment_ok(lb, w.skip(1), rest) && (w.skip(1).len() > 0 ==> rest[0]
                != s);
        let sides = seq![s] + rest;
        assert(side_assignment_ok(lb, w, sides)) by {
            assert forall|k: int|
                0 <= k < w.len() implies 0 <= #[trigger] sides[k] < 4 && lb.side(
                sides[k]).contains(w[k]) by {
                if k > 0 {
                    assert(sides[k] == rest[k - 1] && w[k] == w.skip(1)[k - 1]);
                }
            }
            assert forall|k: int| 0 <= k < w.len() - 1 implies sides[k] != #[trigger] sides[k
                + 1] by {
                if k == 0 {
                    assert(sides[1] == rest[0]);
                } else {
                    assert(sides[k] == rest[k - 1] && sides[k + 1] == rest[k]);
                }
            }
        }
    }
}

/// Every legal word admits a side assignment: each of its characters comes
/// from some side of the frame, and no two consecutive characters come
/// from the same side.
pub proof fn lemma_legal_word_assignment(lb: LetterBox, w: Seq<char>)
    requires
        lb.legal_word(w),
    ensures
        exists|sides: Seq<int>| #[trigger] side_assignment_ok(lb, w, sides),
{
    lemma_legal_from_assignment(lb, w, -1);
    let sides = choose|sides: Seq<int>|
        #[trigger] side_assignment_ok(lb, w, sides) && (w.len() > 0 ==> sides[0] != -1);
}

} // verus!
