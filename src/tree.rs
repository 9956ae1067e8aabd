//! The prefix tree that holds the dictionary.
use vstd::prelude::*;

use crate::text::letters;

verus! {

/// A node of a prefix tree. Apart from the root, each node stands for one
/// letter of a word.
///
/// Each path from the root that ends on a node with `is_word` set spells a
/// word. Words are added with [`LetterTree::insert`], and
/// [`LetterTree::word_status`] tells the [`Status`] of a letter sequence.
#[derive(Debug)]
pub struct LetterTree {
    /// The letter this node stands for; `None` for the root.
    pub value: Option<char>,
    /// Whether the path that ends here spells a complete word.
    pub is_word: bool,
    /// The children: the letters that can follow the path that ends here.
    pub leaves: Vec<LetterTree>,
}

/// What a letter sequence is with respect to the words of a [`LetterTree`].
#[derive(Debug, Clone, Copy, PartialEq, Eq, Structural)]
pub enum Status {
    /// The sequence is a word.
    Word,
    /// The sequence is no word, but some word starts with it.
    Possible,
    /// The sequence is no word, and no word starts with it.
    Impossible,
}

/// Whether `w` is a strict prefix of `v`.
pub open spec fn strict_prefix(w: Seq<char>, v: Seq<char>) -> bool {
    w.len() < v.len() && v.subrange(0, w.len() as int) == w
}

/// The status of `w` with respect to the set of words `words`.
pub open spec fn status_in(words: Set<Seq<char>>, w: Seq<char>) -> Status {
    if words.contains(w) {
        Status::Word
    } else if exists|v: Seq<char>| words.contains(v) && strict_prefix(w, v) {
        Status::Possible
    } else {
        Status::Impossible
    }
}

/// The set of words after `w` is inserted: the empty sequence is never added.
pub open spec fn with_word(words: Set<Seq<char>>, w: Seq<char>) -> Set<Seq<char>> {
    if w.len() == 0 {
        words
    } else {
        words.insert(w)
    }
}

impl LetterTree {
    /// Whether reading `w` downward from this node ends on a node marked as a word.
    pub open spec fn spells(self, w: Seq<char>) -> bool
        decreases w.len(),
    {
        if w.len() == 0 {
            self.is_word
        } else {
            exists|i: int|
                #![trigger self.leaves@[i]]
                0 <= i < self.leaves.len() && self.leaves@[i].value == Some(w[0])
                    && self.leaves@[i].spells(w.drop_first())
        }
    }

    /// Whether some path below (or at) this node spells a word.
    pub open spec fn has_words(self) -> bool {
        exists|w: Seq<char>| self.spells(w)
    }

    /// Every child carries a letter, and no two children carry the same one.
    pub open spec fn distinct_letters(self) -> bool {
        &&& forall|i: int| 0 <= i < self.leaves.len() ==> (#[trigger] self.leaves@[i]).value is Some
        &&& forall|i: int, j: int|
            0 <= i < j < self.leaves.len() ==> self.leaves@[i].value != self.leaves@[j].value
    }

    /// The tree's invariant: letters are distinct among siblings at every
    /// level, and every node below the root leads to at least one word.
    pub open spec fn wf(self) -> bool
        decreases self,
    {
        &&& self.distinct_letters()
        &&& forall|i: int|
            0 <= i < self.leaves.len() ==> (#[trigger] self.leaves@[i]).wf()
                && self.leaves@[i].has_words()
    }
}

impl Default for LetterTree {
    fn default() -> (t: Self)
        ensures
            t.wf(),
            t@ == Set::<Seq<char>>::empty(),
    {
        LetterTree::new()
    }
}

impl View for LetterTree {
    type V = Set<Seq<char>>;

    /// The words the tree holds.
    open spec fn view(&self) -> Set<Seq<char>> {
        Set::new(|w: Seq<char>| self.spells(w))
    }
}

impl LetterTree {
    /// An empty tree: a root that holds no word.
    pub fn new() -> (t: Self)
        ensures
            t.wf(),
            t@ == Set::<Seq<char>>::empty(),
            t.value is None,
    {
        LetterTree { value: None, is_word: false, leaves: Vec::new() }
    }

    /// A tree that holds each of `words`; empty strings are left out.
    pub fn from_words(words: &Vec<String>) -> (t: Self)
        ensures
            t.wf(),
            forall|w: Seq<char>|
                t@.contains(w) <==> w.len() > 0 && exists|i: int|
                    0 <= i < words.len() && #[trigger] words@[i]@ == w,
    {
        let mut t = LetterTree::new();
        let mut k: usize = 0;
        while k < words.len()
            invariant
                k <= words.len(),
                t.wf(),
                forall|w: Seq<char>|
                    t@.contains(w) <==> w.len() > 0 && exists|i: int|
                        0 <= i < k && #[trigger] words@[i]@ == w,
            decreases words.len() - k,
        {
            let ghost before = t@;
            t.insert(words[k].as_str());
            proof {
                assert forall|w: Seq<char>|
                    t@.contains(w) <==> w.len() > 0 && exists|i: int|
                        0 <= i < k + 1 && #[trigger] words@[i]@ == w by {
                    if w.len() > 0 && words@[k as int]@ == w {
                        assert(t@.contains(w));
                    }
                    if w.len() > 0 && exists|i: int| 0 <= i < k + 1 && #[trigger] words@[i]@ == w {
                        let i = choose|i: int| 0 <= i < k + 1 && #[trigger] words@[i]@ == w;
                        if i < k {
                            assert(before.contains(w));
                        }
                    }
                }
            }
            k += 1;
        }
        t
    }

    /// The index of the child that carries `c`, if any child does.
    fn child_index(&self, c: char) -> (r: Option<usize>)
        ensures
            match r {
                Some(j) => j < self.leaves.len() && self.leaves@[j as int].value == Some(c),
                None => forall|i: int|
                    0 <= i < self.leaves.len() ==> self.leaves@[i].value != Some(c),
            },
    {
        let mut i: usize = 0;
        while i < self.leaves.len()
            invariant
                i <= self.leaves.len(),
                forall|k: int| 0 <= k < i ==> self.leaves@[k].value != Some(c),
            decreases self.leaves.len() - i,
        {
            match self.leaves[i].value {
                Some(d) => {
                    if d == c {
                        return Some(i);
                    }
                },
                None => {},
            }
            i += 1;
        }
        None
    }

    /// Reading `c` and then `u` from this node is reading `u` from the child
    /// that carries `c`.
    proof fn lemma_spells_through(self, j: int, c: char, u: Seq<char>)
        requires
            self.distinct_letters(),
            0 <= j < self.leaves.len(),
            self.leaves@[j].value == Some(c),
        ensures
            self.spells(seq![c] + u) == self.leaves@[j].spells(u),
    {
        let w = seq![c] + u;
        assert(w.drop_first() =~= u);
        if self.spells(w) {
            let i = choose|i: int|
                #![trigger self.leaves@[i]]
                0 <= i < self.leaves.len() && self.leaves@[i].value == Some(w[0])
                    && self.leaves@[i].spells(w.drop_first());
            assert(i == j);
        }
        if self.leaves@[j].spells(u) {
            assert(self.leaves@[j].value == Some(w[0]));
        }
    }

    /// No sequence that starts with a letter no child carries is spelled.
    proof fn lemma_spells_no_child(self, c: char, u: Seq<char>)
        requires
            forall|i: int| 0 <= i < self.leaves.len() ==> self.leaves@[i].value != Some(c),
        ensures
            !self.spells(seq![c] + u),
    {
        let w = seq![c] + u;
        assert(w[0] == c);
    }

    /// The status of the sequence that ends at this node.
    proof fn lemma_status_here(self)
        requires
            self.wf(),
        ensures
            status_in(self@, Seq::empty()) == (if self.is_word {
                Status::Word
            } else if self.leaves.len() > 0 {
                Status::Possible
            } else {
                Status::Impossible
            }),
    {
        let e = Seq::<char>::empty();
        if !self.is_word {
            assert(!self@.contains(e));
            if self.leaves.len() > 0 {
                let child = self.leaves@[0];
                assert(child.has_words());
                let u = choose|u: Seq<char>| child.spells(u);
                let c = child.value->0;
                self.lemma_spells_through(0, c, u);
                let v = seq![c] + u;
                assert(v.subrange(0, 0) =~= e);
                assert(self@.contains(v) && strict_prefix(e, v));
            } else {
                assert forall|v: Seq<char>| self@.contains(v) implies !strict_prefix(e, v) by {
                    assert(v.len() == 0);
                }
            }
        }
    }

    /// The status of `c` followed by `u` is the status of `u` below the child
    /// that carries `c`.
    proof fn lemma_status_through(self, j: int, c: char, u: Seq<char>)
        requires
            self.distinct_letters(),
            0 <= j < self.leaves.len(),
            self.leaves@[j].value == Some(c),
        ensures
            status_in(self@, seq![c] + u) == status_in(self.leaves@[j]@, u),
    {
        let child = self.leaves@[j];
        let w = seq![c] + u;
        self.lemma_spells_through(j, c, u);
        if exists|v: Seq<char>| self@.contains(v) && strict_prefix(w, v) {
            let v = choose|v: Seq<char>| self@.contains(v) && strict_prefix(w, v);
            let t = v.drop_first();
            assert(v[0] == w[0]);
            assert(v =~= seq![c] + t);
            self.lemma_spells_through(j, c, t);
            assert(t.subrange(0, u.len() as int) =~= v.subrange(0, w.len() as int).drop_first());
            assert(w.drop_first() =~= u);
            assert(child@.contains(t) && strict_prefix(u, t));
        }
        if exists|t: Seq<char>| child@.contains(t) && strict_prefix(u, t) {
            let t = choose|t: Seq<char>| child@.contains(t) && strict_prefix(u, t);
            self.lemma_spells_through(j, c, t);
            let v = seq![c] + t;
            assert(v.subrange(0, w.len() as int) =~= seq![c] + t.subrange(0, u.len() as int));
            assert(self@.contains(v) && strict_prefix(w, v));
        }
    }

    /// Nothing that starts with a letter no child carries is a word or the
    /// start of one.
    proof fn lemma_status_no_child(self, c: char, u: Seq<char>)
        requires
            forall|i: int| 0 <= i < self.leaves.len() ==> self.leaves@[i].value != Some(c),
        ensures
            status_in(self@, seq![c] + u) == Status::Impossible,
    {
        let w = seq![c] + u;
        self.lemma_spells_no_child(c, u);
        assert forall|v: Seq<char>| self@.contains(v) implies !strict_prefix(w, v) by {
            if strict_prefix(w, v) {
                assert(v[0] == w[0]);
                assert(v =~= seq![c] + v.drop_first());
                self.lemma_spells_no_child(c, v.drop_first());
            }
        }
    }

    /// The status of the letters of `w` from position `i` on, read from this node.
    fn status_from(&self, w: &Vec<char>, i: usize) -> (r: Status)
        requires
            self.wf(),
            i <= w.len(),
        ensures
            r == status_in(self@, w@.subrange(i as int, w.len() as int)),
        decreases w.len() - i,
    {
        if i == w.len() {
            proof {
                self.lemma_status_here();
                assert(w@.subrange(i as int, w.len() as int) =~= Seq::<char>::empty());
            }
            if self.is_word {
                Status::Word
            } else if self.leaves.len() > 0 {
                Status::Possible
            } else {
                Status::Impossible
            }
        } else {
            let c = w[i];
            let ghost rest = w@.subrange(i + 1, w.len() as int);
            assert(w@.subrange(i as int, w.len() as int) =~= seq![c] + rest);
            match self.child_index(c) {
                Some(j) => {
                    proof {
                        self.lemma_status_through(j as int, c, rest);
                    }
                    self.leaves[j].status_from(w, i + 1)
                },
                None => {
                    proof {
                        self.lemma_status_no_child(c, rest);
                    }
                    Status::Impossible
                },
            }
        }
    }

    /// A tree of one node with no children and no word spells nothing.
    proof fn lemma_bare_spells_nothing(self, u: Seq<char>)
        requires
            !self.is_word,
            self.leaves.len() == 0,
        ensures
            !self.spells(u),
    {
    }

    /// Adds the letters of `w` from position `i` on below this node.
    fn insert_from(&mut self, w: &Vec<char>, i: usize)
        requires
            old(self).wf(),
            i <= w.len(),
        ensures
            final(self).wf(),
            final(self)@ == old(self)@.insert(w@.subrange(i as int, w.len() as int)),
            final(self).value == old(self).value,
        decreases w.len() - i,
    {
        let ghost s = w@.subrange(i as int, w.len() as int);
        if i == w.len() {
            self.is_word = true;
            proof {
                assert(s =~= Seq::<char>::empty());
                assert forall|v: Seq<char>| #[trigger] self.spells(v) == (old(self).spells(v) || v == s) by {
                    if v.len() > 0 {
                        assert(self.leaves@ == old(self).leaves@);
                    } else {
                        assert(v =~= s);
                    }
                }
                assert(self@ =~= old(self)@.insert(s));
            }
        } else {
            let c = w[i];
            let ghost rest = w@.subrange(i + 1, w.len() as int);
            assert(s =~= seq![c] + rest);
            let j = match self.child_index(c) {
                Some(j) => j,
                None => {
                    self.leaves.push(LetterTree { value: Some(c), is_word: false, leaves: Vec::new() });
                    self.leaves.len() - 1
                },
            };
            let ghost mid = *self;
            let ghost child = mid.leaves@[j as int];
            proof {
                assert(mid.distinct_letters());
                // Reading from `mid` is reading from the tree before the call.
                assert forall|v: Seq<char>| #[trigger] mid.spells(v) == old(self).spells(v) by {
                    if v.len() > 0 && v[0] == c {
                        let t = v.drop_first();
                        assert(v =~= seq![c] + t);
                        mid.lemma_spells_through(j as int, c, t);
                        if j < old(self).leaves.len() {
                            old(self).lemma_spells_through(j as int, c, t);
                        } else {
                            old(self).lemma_spells_no_child(c, t);
                            child.lemma_bare_spells_nothing(t);
                        }
                    } else if v.len() > 0 {
                        if mid.spells(v) {
                            let k = choose|k: int|
                                #![trigger mid.leaves@[k]]
                                0 <= k < mid.leaves.len() && mid.leaves@[k].value == Some(v[0])
                                    && mid.leaves@[k].spells(v.drop_first());
                            assert(k != j);
                            assert(old(self).leaves@[k] == mid.leaves@[k]);
                        }
                        if old(self).spells(v) {
                            let k = choose|k: int|
                                #![trigger old(self).leaves@[k]]
                                0 <= k < old(self).leaves.len() && old(self).leaves@[k].value
                                    == Some(v[0]) && old(self).leaves@[k].spells(v.drop_first());
                            assert(mid.leaves@[k] == old(self).leaves@[k]);
                        }
                    }
                }
            }
            self.leaves[j].insert_from(w, i + 1);
            proof {
                let after = self.leaves@[j as int];
                assert(after@ == child@.insert(rest));
                assert(after@.contains(rest));
                assert(self.leaves@ == mid.leaves@.update(j as int, after));
                assert(self.distinct_letters());
                assert(after.spells(rest));
                assert forall|k: int| 0 <= k < self.leaves.len() implies (#[trigger] self.leaves@[k]).wf()
                    && self.leaves@[k].has_words() by {
                    if k != j {
                        assert(self.leaves@[k] == old(self).leaves@[k]);
                    }
                }
                assert forall|v: Seq<char>| #[trigger] self.spells(v) == (mid.spells(v) || v == s) by {
                    if v.len() > 0 && v[0] == c {
                        let t = v.drop_first();
                        assert(v =~= seq![c] + t);
                        self.lemma_spells_through(j as int, c, t);
                        mid.lemma_spells_through(j as int, c, t);
                        assert(after@.contains(t) == after.spells(t));
                        assert(child@.contains(t) == child.spells(t));
                        assert(after.spells(t) == (child.spells(t) || t == rest));
                        if t == rest {
                            assert(v =~= s);
                        }
                        if v == s {
                            assert(t =~= rest);
                        }
                    } else if v.len() > 0 {
                        if self.spells(v) {
                            let k = choose|k: int|
                                #![trigger self.leaves@[k]]
                                0 <= k < self.leaves.len() && self.leaves@[k].value == Some(v[0])
                                    && self.leaves@[k].spells(v.drop_first());
                            assert(k != j);
                            assert(mid.leaves@[k] == self.leaves@[k]);
                        }
                        if mid.spells(v) {
                            let k = choose|k: int|
                                #![trigger mid.leaves@[k]]
                                0 <= k < mid.leaves.len() && mid.leaves@[k].value == Some(v[0])
                                    && mid.leaves@[k].spells(v.drop_first());
                            assert(k != j);
                            assert(self.leaves@[k] == mid.leaves@[k]);
                        }
                        assert(v != s);
                    } else {
                        assert(self.is_word == mid.is_word);
                        assert(v != s);
                    }
                }
                assert(self@ =~= old(self)@.insert(s));
            }
        }
    }

    /// Adds `word` to the tree. The empty string is not added.
    pub fn insert(&mut self, word: &str)
        requires
            old(self).wf(),
        ensures
            final(self).wf(),
            final(self)@ == with_word(old(self)@, word@),
            final(self).value == old(self).value,
    {
        let w = letters(word);
        if w.len() == 0 {
            return;
        }
        assert(w@.subrange(0, w.len() as int) =~= w@);
        self.insert_from(&w, 0);
    }

    /// The [`Status`] of `word`: whether it is a word of the tree, the start
    /// of one, or neither.
    pub fn word_status(&self, word: &str) -> (r: Status)
        requires
            self.wf(),
        ensures
            r == status_in(self@, word@),
    {
        let w = letters(word);
        self.status_of(&w)
    }

    /// The [`Status`] of the letter sequence `w`.
    pub fn status_of(&self, w: &Vec<char>) -> (r: Status)
        requires
            self.wf(),
        ensures
            r == status_in(self@, w@),
    {
        assert(w@.subrange(0, w.len() as int) =~= w@);
        self.status_from(w, 0)
    }
}

/// How a tree classifies: each of its words is a [`Status::Word`]; a strict
/// prefix of one of its words that is no word itself is
/// [`Status::Possible`]; a sequence that is no word and that starts no word is
/// [`Status::Impossible`].
pub proof fn lemma_classification(t: LetterTree)
    requires
        t.wf(),
    ensures
        forall|w: Seq<char>| t@.contains(w) ==> status_in(t@, w) == Status::Word,
        forall|w: Seq<char>, p: Seq<char>|
            t@.contains(w) && strict_prefix(p, w) && !t@.contains(p) ==> status_in(t@, p)
                == Status::Possible,
        forall|s: Seq<char>|
            !t@.contains(s) && (forall|w: Seq<char>| t@.contains(w) ==> !strict_prefix(s, w))
                ==> status_in(t@, s) == Status::Impossible,
{
}

/// Inserting a word a second time changes neither the words of the tree nor
/// the status of any sequence.
pub proof fn lemma_insert_idempotent(t: LetterTree, w: Seq<char>)
    requires
        t.wf(),
    ensures
        with_word(with_word(t@, w), w) == with_word(t@, w),
        forall|s: Seq<char>| status_in(with_word(with_word(t@, w), w), s) == status_in(with_word(t@, w), s),
{
    assert(with_word(with_word(t@, w), w) =~= with_word(t@, w));
}

} // verus!
