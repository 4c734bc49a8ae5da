//! The dictionary trie. A word is filed under the path made of its letters
//! taken from the last one to the first one, and the node at the end of that
//! path holds the word itself.
use vstd::prelude::*;

use crate::text::{byte_len, chars_of};

verus! {

/// One node of the dictionary trie: the word that ends here, if any, and
/// the children, each under the letter that leads to it.
pub struct TrieNode {
    value: Option<String>,
    children: Vec<(char, TrieNode)>,
}

/// Position `i` holds the first child labelled `c`.
pub open spec fn is_first_label(children: Seq<(char, TrieNode)>, c: char, i: int) -> bool {
    &&& 0 <= i < children.len()
    &&& children[i].0 == c
    &&& forall|j: int| 0 <= j < i ==> children[j].0 != c
}

/// The path under which a word is filed: its letters, last one first.
pub open spec fn word_key(word: Seq<char>) -> Seq<char> {
    word.reverse()
}

/// A dictionary line is filed only if it is longer than three bytes.
pub open spec fn long_enough(line: Seq<char>) -> bool {
    byte_len(line) > 3
}

/// The words that a list of dictionary lines files: every line longer than
/// three bytes.
pub open spec fn listed_word(lines: Seq<String>, n: int, word: Seq<char>) -> bool {
    exists|j: int| 0 <= j < n && #[trigger] lines[j]@ == word && long_enough(word)
}

impl TrieNode {
    /// The child reached by letter `c`.
    pub closed spec fn child(self, c: char) -> Option<TrieNode> {
        if exists|i: int| is_first_label(self.children@, c, i) {
            Some(self.children@[choose|i: int| is_first_label(self.children@, c, i)].1)
        } else {
            None
        }
    }

    /// The node reached from this one by following `path`.
    pub closed spec fn node_at(self, path: Seq<char>) -> Option<TrieNode>
        decreases path.len(),
    {
        if path.len() == 0 {
            Some(self)
        } else {
            match self.child(path[0]) {
                Some(n) => n.node_at(path.drop_first()),
                None => None,
            }
        }
    }

    /// The word held by this node itself.
    pub closed spec fn stored(self) -> Option<Seq<char>> {
        match self.value {
            Some(s) => Some(s@),
            None => None,
        }
    }

    /// The word held at the end of `path`, if the path exists and its last
    /// node holds a word.
    pub open spec fn lookup(self, path: Seq<char>) -> Option<Seq<char>> {
        match self.node_at(path) {
            Some(n) => n.stored(),
            None => None,
        }
    }

    /// The trie holds `word`: it sits at the end of the word's path.
    pub open spec fn holds_word(self, word: Seq<char>) -> bool {
        self.lookup(word_key(word)) == Some(word)
    }

    /// Every word held anywhere in the trie sits under its own path.
    pub open spec fn words_match_paths(self) -> bool {
        forall|p: Seq<char>| #[trigger] self.lookup(p) matches Some(w) ==> p == word_key(w)
    }

    proof fn lemma_first_label_unique(children: Seq<(char, TrieNode)>, c: char, i: int, j: int)
        requires
            is_first_label(children, c, i),
            is_first_label(children, c, j),
        ensures
            i == j,
    {
        if i < j {
            assert(children[i].0 != c);
        } else if j < i {
            assert(children[j].0 != c);
        }
    }

    proof fn lemma_first_exists(children: Seq<(char, TrieNode)>, c: char, j: int)
        requires
            0 <= j < children.len(),
            children[j].0 == c,
        ensures
            exists|i: int| is_first_label(children, c, i),
        decreases j,
    {
        if exists|k: int| 0 <= k < j && children[k].0 == c {
            let k = choose|k: int| 0 <= k < j && children[k].0 == c;
            Self::lemma_first_exists(children, c, k);
        } else {
            assert(is_first_label(children, c, j));
        }
    }

    proof fn lemma_absent(self, c: char)
        requires
            !(exists|i: int| is_first_label(self.children@, c, i)),
        ensures
            forall|j: int| 0 <= j < self.children@.len() ==> self.children@[j].0 != c,
    {
        assert forall|j: int| 0 <= j < self.children@.len() implies self.children@[j].0 != c by {
            if self.children@[j].0 == c {
                Self::lemma_first_exists(self.children@, c, j);
            }
        }
    }

    proof fn lemma_child_at(self, c: char, i: int)
        requires
            is_first_label(self.children@, c, i),
        ensures
            self.child(c) == Some(self.children@[i].1),
    {
        let k = choose|k: int| is_first_label(self.children@, c, k);
        Self::lemma_first_label_unique(self.children@, c, i, k);
    }

    proof fn lemma_no_child(self, c: char)
        requires
            forall|j: int| 0 <= j < self.children@.len() ==> self.children@[j].0 != c,
        ensures
            self.child(c) is None,
    {
    }

    /// Reading the empty path gives the node's own word.
    pub proof fn lemma_lookup_empty(self)
        ensures
            self.lookup(Seq::empty()) == self.stored(),
    {
    }

    /// Reading a path that starts with `c` reads the rest of it from the
    /// child under `c`.
    pub proof fn lemma_lookup_cons(self, c: char, rest: Seq<char>)
        ensures
            self.lookup(seq![c] + rest) == match self.child(c) {
                Some(n) => n.lookup(rest),
                None => None,
            },
    {
        let p = seq![c] + rest;
        assert(p.drop_first() =~= rest);
        assert(p[0] == c);
    }

    /// A child is structurally smaller than its parent.
    pub proof fn lemma_child_smaller(self, c: char)
        requires
            self.child(c) is Some,
        ensures
            decreases_to!(self => self.child(c).unwrap()),
    {
        let i = choose|i: int| is_first_label(self.children@, c, i);
        assert(decreases_to!(self => self.children));
        assert(decreases_to!(self.children => self.children@));
        assert(decreases_to!(self.children@ => self.children@[i]));
        assert(decreases_to!(self.children@[i] => self.children@[i].1));
    }

    /// The node at the end of `a + b` is the node at the end of `b` read
    /// from the node at the end of `a`.
    pub proof fn lemma_node_at_concat(self, a: Seq<char>, b: Seq<char>)
        ensures
            self.node_at(a + b) == match self.node_at(a) {
                Some(n) => n.node_at(b),
                None => None,
            },
        decreases a.len(),
    {
        if a.len() == 0 {
            assert(a + b =~= b);
        } else {
            assert((a + b)[0] == a[0]);
            assert((a + b).drop_first() =~= a.drop_first() + b);
            match self.child(a[0]) {
                Some(c) => c.lemma_node_at_concat(a.drop_first(), b),
                None => {},
            }
        }
    }

    /// A path of one letter leads to the child under that letter.
    pub proof fn lemma_node_at_single(self, c: char)
        ensures
            self.node_at(seq![c]) == self.child(c),
    {
        assert(seq![c][0] == c);
        assert(seq![c].drop_first() =~= Seq::<char>::empty());
        match self.child(c) {
            Some(n) => assert(n.node_at(Seq::<char>::empty()) == Some(n)),
            None => {},
        }
    }

    /// Reading `a + b` reads `b` from the node at the end of `a`.
    pub proof fn lemma_lookup_concat(self, a: Seq<char>, b: Seq<char>)
        ensures
            self.lookup(a + b) == match self.node_at(a) {
                Some(n) => n.lookup(b),
                None => None,
            },
    {
        self.lemma_node_at_concat(a, b);
    }

    /// A node below this one, on a non-empty path, is structurally smaller.
    pub proof fn lemma_node_at_smaller(self, path: Seq<char>)
        requires
            path.len() > 0,
            self.node_at(path) is Some,
        ensures
            decreases_to!(self => self.node_at(path).unwrap()),
        decreases path.len(),
    {
        let c = path[0];
        let n = self.child(c).unwrap();
        self.lemma_child_smaller(c);
        if path.len() > 1 {
            n.lemma_node_at_smaller(path.drop_first());
        } else {
            assert(path.drop_first() =~= Seq::<char>::empty());
        }
    }

    /// An empty node.
    fn new() -> (r: TrieNode)
        ensures
            forall|p: Seq<char>| #[trigger] r.lookup(p) is None,
            r.stored() is None,
    {
        let r = TrieNode { value: None, children: Vec::new() };
        assert forall|p: Seq<char>| #[trigger] r.lookup(p) is None by {
            if p.len() > 0 {
                r.lemma_no_child(p[0]);
            }
        }
        r
    }

    /// The position of the first child under `c`, if there is one.
    fn find_index(&self, c: char) -> (r: Option<usize>)
        ensures
            match r {
                Some(i) => is_first_label(self.children@, c, i as int),
                None => forall|j: int| 0 <= j < self.children@.len() ==> self.children@[j].0 != c,
            },
    {
        let mut i: usize = 0;
        while i < self.children.len()
            invariant
                i <= self.children@.len(),
                forall|j: int| 0 <= j < i ==> self.children@[j].0 != c,
            decreases self.children@.len() - i,
        {
            if self.children[i].0 == c {
                return Some(i);
            }
            i += 1;
        }
        None
    }

    /// The child under `c`, if there is one.
    pub fn get_child(&self, c: char) -> (r: Option<&TrieNode>)
        ensures
            match r {
                Some(n) => self.child(c) == Some(*n),
                None => self.child(c) is None,
            },
    {
        match self.find_index(c) {
            Some(i) => {
                proof {
                    self.lemma_child_at(c, i as int);
                }
                Some(&self.children[i].1)
            },
            None => None,
        }
    }

    proof fn lemma_key_step(letters: Seq<char>, remaining: int)
        requires
            0 < remaining <= letters.len(),
        ensures
            letters.take(remaining).reverse() == seq![letters[remaining - 1]] + letters.take(
                remaining - 1,
            ).reverse(),
    {
        assert(letters.take(remaining).reverse() =~= seq![letters[remaining - 1]] + letters.take(
            remaining - 1,
        ).reverse());
    }

    /// Files `word` under the path made of the first `remaining` letters of
    /// `letters`, taken from the last one to the first one.
    fn insert(&mut self, letters: &Vec<char>, remaining: usize, word: String)
        requires
            remaining <= letters@.len(),
        ensures
            forall|p: Seq<char>| #[trigger]
                final(self).lookup(p) == if p == letters@.take(remaining as int).reverse() {
                    Some(word@)
                } else {
                    old(self).lookup(p)
                },
        decreases remaining,
    {
        if remaining > 0 {
            let c = letters[remaining - 1];
            let idx: usize = match self.find_index(c) {
                Some(i) => i,
                None => {
                    self.children.push((c, TrieNode::new()));
                    self.children.len() - 1
                },
            };
            let ghost mid = *self;
            let ghost old_child = self.children@[idx as int].1;
            assert(is_first_label(mid.children@, c, idx as int));
            self.children[idx].1.insert(letters, remaining - 1, word);
            proof {
                let key = letters@.take(remaining as int).reverse();
                let key_rest = letters@.take(remaining - 1).reverse();
                Self::lemma_key_step(letters@, remaining as int);
                assert(self.children@ == mid.children@.update(idx as int, (c, self.children@[idx as int].1)));
                assert forall|p: Seq<char>| #[trigger]
                    self.lookup(p) == if p == key { Some(word@) } else { old(self).lookup(p) } by {
                    if p.len() == 0 {
                        assert(p != key);
                    } else {
                        let p0 = p[0];
                        let rest = p.drop_first();
                        assert(p == seq![p0] + rest);
                        self.lemma_lookup_cons(p0, rest);
                        old(self).lemma_lookup_cons(p0, rest);
                        if p0 == c {
                            self.lemma_child_at(c, idx as int);
                            assert(key.drop_first() =~= key_rest);
                            if rest == key_rest {
                                assert(p =~= key);
                            }
                            assert(p == key <==> rest == key_rest);
                            match old(self).find_first(c) {
                                Some(j) => {
                                    old(self).lemma_child_at(c, j);
                                    Self::lemma_first_label_unique(mid.children@, c, idx as int, j);
                                },
                                None => {
                                    old(self).lemma_no_child(c);
                                },
                            }
                        } else {
                            assert(p != key);
                            match old(self).find_first(p0) {
                                Some(j) => {
                                    old(self).lemma_child_at(p0, j);
                                    assert(is_first_label(self.children@, p0, j));
                                    self.lemma_child_at(p0, j);
                                },
                                None => {
                                    old(self).lemma_absent(p0);
                                    self.lemma_no_child(p0);
                                },
                            }
                        }
                    }
                }
            }
        } else {
            self.value = Some(word);
            proof {
                assert forall|p: Seq<char>| #[trigger]
                    self.lookup(p) == if p == letters@.take(remaining as int).reverse() {
                        Some(word@)
                    } else {
                        old(self).lookup(p)
                    } by {
                    if p.len() > 0 {
                        let rest = p.drop_first();
                        assert(p == seq![p[0]] + rest);
                        self.lemma_lookup_cons(p[0], rest);
                        old(self).lemma_lookup_cons(p[0], rest);
                    } else {
                        assert(p =~= letters@.take(remaining as int).reverse());
                    }
                }
            }
        }
    }

    /// The position of the first child labelled `c`, as a ghost value.
    spec fn find_first(self, c: char) -> Option<int> {
        if exists|i: int| is_first_label(self.children@, c, i) {
            Some(choose|i: int| is_first_label(self.children@, c, i))
        } else {
            None
        }
    }

    /// The word this node holds, if any.
    pub fn stored_word(&self) -> (r: Option<String>)
        ensures
            match r {
                Some(s) => self.stored() == Some(s@),
                None => self.stored() is None,
            },
    {
        match &self.value {
            Some(s) => Some(s.clone()),
            None => None,
        }
    }

    /// Reads the word filed under the path made of the first `remaining`
    /// letters of `letters`, taken from the last one to the first one.
    fn _find(&self, letters: &Vec<char>, remaining: usize) -> (r: Option<String>)
        requires
            remaining <= letters@.len(),
        ensures
            match r {
                Some(s) => self.lookup(letters@.take(remaining as int).reverse()) == Some(s@),
                None => self.lookup(letters@.take(remaining as int).reverse()) is None,
            },
        decreases remaining,
    {
        if remaining > 0 {
            let letter = letters[remaining - 1];
            proof {
                Self::lemma_key_step(letters@, remaining as int);
                self.lemma_lookup_cons(letter, letters@.take(remaining - 1).reverse());
            }
            match self.get_child(letter) {
                Some(child) => child._find(letters, remaining - 1),
                None => None,
            }
        } else {
            proof {
                assert(letters@.take(0).reverse() =~= Seq::<char>::empty());
            }
            self.stored_word()
        }
    }

    /// Files `word` in the trie. Afterwards the word is found under its
    /// path and every other path reads as before.
    pub fn insert_word(&mut self, word: String)
        ensures
            forall|p: Seq<char>| #[trigger]
                final(self).lookup(p) == if p == word_key(word@) {
                    Some(word@)
                } else {
                    old(self).lookup(p)
                },
            old(self).words_match_paths() ==> final(self).words_match_paths(),
    {
        let letters = chars_of(word.as_str());
        let n = letters.len();
        proof {
            assert(letters@.take(n as int) =~= word@);
        }
        self.insert(&letters, n, word);
    }

    /// The word filed under the path of `word`, if any.
    pub fn _find_word(&self, word: String) -> (r: Option<String>)
        ensures
            match r {
                Some(s) => self.lookup(word_key(word@)) == Some(s@),
                None => self.lookup(word_key(word@)) is None,
            },
    {
        let letters = chars_of(word.as_str());
        let n = letters.len();
        proof {
            assert(letters@.take(n as int) =~= word@);
        }
        self._find(&letters, n)
    }

    /// Builds the trie of the dictionary lines `lines`: every line longer
    /// than three bytes is filed, the others are left out.
    pub fn build_trie(lines: &Vec<String>) -> (r: TrieNode)
        ensures
            forall|p: Seq<char>| #[trigger]
                r.lookup(p) == if listed_word(lines@, lines@.len() as int, p.reverse()) {
                    Some(p.reverse())
                } else {
                    None
                },
            r.words_match_paths(),
    {
        let mut root = TrieNode::new();
        let mut i: usize = 0;
        while i < lines.len()
            invariant
                i <= lines@.len(),
                forall|p: Seq<char>| #[trigger]
                    root.lookup(p) == if listed_word(lines@, i as int, p.reverse()) {
                        Some(p.reverse())
                    } else {
                        None
                    },
                root.words_match_paths(),
            decreases lines@.len() - i,
        {
            let line = &lines[i];
            let text = line.as_str();
            if text.len() > 3 {
                let ghost before = root;
                root.insert_word(line.clone());
                proof {
                    assert forall|p: Seq<char>| #[trigger]
                        root.lookup(p) == if listed_word(lines@, i + 1, p.reverse()) {
                            Some(p.reverse())
                        } else {
                            None
                        } by {
                        if p == word_key(line@) {
                            assert(p.reverse() =~= line@);
                            assert(lines@[i as int]@ == p.reverse());
                        } else {
                            if listed_word(lines@, i + 1, p.reverse()) {
                                let j = choose|j: int|
                                    0 <= j < i + 1 && #[trigger] lines@[j]@ == p.reverse()
                                        && long_enough(p.reverse());
                                if j == i {
                                    assert(p =~= word_key(line@));
                                }
                                assert(listed_word(lines@, i as int, p.reverse()));
                            }
                        }
                    }
                }
            } else {
                proof {
                    assert(text@ == line@);
                    assert(!long_enough(line@));
                    assert forall|p: Seq<char>| #[trigger]
                        root.lookup(p) == if listed_word(lines@, i + 1, p.reverse()) {
                            Some(p.reverse())
                        } else {
                            None
                        } by {
                        if listed_word(lines@, i + 1, p.reverse()) {
                            let j = choose|j: int|
                                0 <= j < i + 1 && #[trigger] lines@[j]@ == p.reverse()
                                    && long_enough(p.reverse());
                            assert(listed_word(lines@, i as int, p.reverse()));
                        }
                    }
                }
            }
            i += 1;
        }
        root
    }
}

/// Two words share a path only if they are the same word.
pub proof fn lemma_word_key_injective(a: Seq<char>, b: Seq<char>)
    ensures
        word_key(a) == word_key(b) ==> a == b,
{
    if word_key(a) == word_key(b) {
        assert(a.reverse().reverse() =~= a);
        assert(b.reverse().reverse() =~= b);
    }
}

/// Reading back what was filed: once `insert_word(word)` has run, the trie
/// holds `word` (so `_find_word(word)` returns it), and every other word
/// reads as it did before.
pub proof fn lemma_find_after_insert(
    before: TrieNode,
    after: TrieNode,
    word: Seq<char>,
    other: Seq<char>,
)
    requires
        forall|p: Seq<char>| #[trigger]
            after.lookup(p) == if p == word_key(word) {
                Some(word)
            } else {
                before.lookup(p)
            },
    ensures
        after.holds_word(word),
        other != word ==> after.lookup(word_key(other)) == before.lookup(word_key(other)),
{
    lemma_word_key_injective(other, word);
}

/// A built trie holds exactly the dictionary lines longer than three
/// bytes: `_find_word(w)` returns `w` for those and nothing for any other
/// word.
pub proof fn lemma_built_trie_words(lines: Seq<String>, trie: TrieNode, w: Seq<char>)
    requires
        forall|p: Seq<char>| #[trigger]
            trie.lookup(p) == if listed_word(lines, lines.len() as int, p.reverse()) {
                Some(p.reverse())
            } else {
                None
            },
    ensures
        trie.lookup(word_key(w)) == if listed_word(lines, lines.len() as int, w) {
            Some(w)
        } else {
            None
        },
{
    assert(word_key(w).reverse() =~= w);
}

} // verus!
