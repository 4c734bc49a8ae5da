//! The 4x4 board of letters and the search for the dictionary words that
//! can be traced on it.
use vstd::prelude::*;

use crate::text::{
    byte_len, contains_text, distinct_texts, distinct_words, has_text, lemma_has_text_push,
    string_from_chars,
};
use crate::trie::TrieNode;

verus! {

/// The letters a board is drawn from, most frequent first.
pub const LETTERS: [char; 26] = [
    'e', 'a', 'r', 'i', 'o', 't', 'n', 's', 'l', 'c', 'u', 'd', 'p', 'm', 'h', 'g', 'b', 'f', 'y',
    'w', 'k', 'v', 'x', 'z', 'j', 'q',
];

/// A square of the board: row, then column.
pub type Cell = (usize, usize);

/// The board: four rows of four letters.
#[derive(Clone)]
pub struct BoggleBoard {
    pub letters: Vec<Vec<char>>,
}

/// The square lies on the 4x4 board.
pub open spec fn in_grid(c: Cell) -> bool {
    c.0 < 4 && c.1 < 4
}

/// `b` is one of the (up to eight) squares around `a`.
pub open spec fn adjacent_cells(a: Cell, b: Cell) -> bool {
    &&& in_grid(b)
    &&& a != b
    &&& a.0 <= b.0 + 1
    &&& b.0 <= a.0 + 1
    &&& a.1 <= b.1 + 1
    &&& b.1 <= a.1 + 1
}

/// A trail: a non-empty walk over squares of the board, each step to an
/// adjacent square, that never visits a square twice.
pub open spec fn is_trail(path: Seq<Cell>) -> bool {
    &&& path.len() >= 1
    &&& forall|i: int| 0 <= i < path.len() ==> in_grid(#[trigger] path[i])
    &&& path.no_duplicates()
    &&& forall|i: int| 0 <= i < path.len() - 1 ==> adjacent_cells(#[trigger] path[i], path[i + 1])
}

/// The letters a square stands for: `q` stands for "qu", every other letter
/// for itself.
pub open spec fn square_letters(c: char) -> Seq<char> {
    if c == 'q' {
        seq!['q', 'u']
    } else {
        seq![c]
    }
}

impl BoggleBoard {
    /// Four rows of four letters.
    pub open spec fn is_square(self) -> bool {
        &&& self.letters@.len() == 4
        &&& forall|i: int| 0 <= i < 4 ==> (#[trigger] self.letters@[i])@.len() == 4
    }

    /// The letter on square `c`.
    pub open spec fn letter_at(self, c: Cell) -> char {
        self.letters@[c.0 as int]@[c.1 as int]
    }

    /// The letters a walk spells, square by square.
    pub open spec fn spelled(self, path: Seq<Cell>) -> Seq<char>
        decreases path.len(),
    {
        if path.len() == 0 {
            Seq::empty()
        } else {
            self.spelled(path.drop_last()) + square_letters(self.letter_at(path.last()))
        }
    }

    /// `w` can be traced on the board: it is longer than three bytes (the
    /// rule by which the dictionary keeps a word) and a trail spells it.
    pub open spec fn traceable(self, w: Seq<char>) -> bool {
        &&& byte_len(w) > 3
        &&& exists|p: Seq<Cell>| is_trail(p) && #[trigger] self.spelled(p) == w
    }

    /// The letters met when the trie, which files every word from its last
    /// letter, is read along the walk `path`: the squares in order, the
    /// letters of each square last one first. This is what the reversed walk
    /// spells, backwards.
    pub open spec fn reading(self, path: Seq<Cell>) -> Seq<char>
        decreases path.len(),
    {
        if path.len() == 0 {
            Seq::empty()
        } else {
            self.reading(path.drop_last()) + square_letters(self.letter_at(path.last())).reverse()
        }
    }

    /// Following the walk `s` on from the trail `pre`, with the trie read
    /// from `node` (where reading `pre` has led), ends on a node that holds
    /// `w`, a word longer than three bytes.
    pub open spec fn extends_to_word(
        self,
        pre: Seq<Cell>,
        node: TrieNode,
        s: Seq<Cell>,
        w: Seq<char>,
    ) -> bool {
        &&& is_trail(pre + s)
        &&& byte_len(w) > 3
        &&& node.lookup(self.reading(s)) == Some(w)
    }

    /// Some continuation of the trail `pre` reaches a node that holds `w`.
    pub open spec fn reachable_word(self, pre: Seq<Cell>, node: TrieNode, w: Seq<char>) -> bool {
        exists|s: Seq<Cell>| #[trigger] self.extends_to_word(pre, node, s, w)
    }

    /// Some non-empty continuation of `pre` whose first square is in
    /// `cands` reaches a node that holds `w`.
    pub open spec fn reachable_via(
        self,
        pre: Seq<Cell>,
        node: TrieNode,
        cands: Seq<Cell>,
        w: Seq<char>,
    ) -> bool {
        exists|s: Seq<Cell>|
            s.len() >= 1 && cands.contains(s[0]) && #[trigger] self.extends_to_word(
                pre,
                node,
                s,
                w,
            )
    }

    /// A trail along all of which the trie is read ends on a node that holds
    /// `w`, a word longer than three bytes.
    pub open spec fn traces(self, trie: TrieNode, path: Seq<Cell>, w: Seq<char>) -> bool {
        &&& is_trail(path)
        &&& byte_len(w) > 3
        &&& trie.lookup(self.reading(path)) == Some(w)
    }

    /// The words the solver finds on this board.
    pub open spec fn solution(self, trie: TrieNode, w: Seq<char>) -> bool {
        exists|path: Seq<Cell>| #[trigger] self.traces(trie, path, w)
    }

    proof fn lemma_reading_concat(self, a: Seq<Cell>, b: Seq<Cell>)
        ensures
            self.reading(a + b) == self.reading(a) + self.reading(b),
        decreases b.len(),
    {
        if b.len() == 0 {
            assert(a + b =~= a);
            assert(self.reading(a) + self.reading(b) =~= self.reading(a));
        } else {
            assert((a + b).drop_last() =~= a + b.drop_last());
            assert((a + b).last() == b.last());
            self.lemma_reading_concat(a, b.drop_last());
            assert(self.reading(a + b) =~= self.reading(a) + self.reading(b));
        }
    }

    proof fn lemma_spelled_concat(self, a: Seq<Cell>, b: Seq<Cell>)
        ensures
            self.spelled(a + b) == self.spelled(a) + self.spelled(b),
        decreases b.len(),
    {
        if b.len() == 0 {
            assert(a + b =~= a);
            assert(self.spelled(a) + self.spelled(b) =~= self.spelled(a));
        } else {
            assert((a + b).drop_last() =~= a + b.drop_last());
            assert((a + b).last() == b.last());
            self.lemma_spelled_concat(a, b.drop_last());
            assert(self.spelled(a + b) =~= self.spelled(a) + self.spelled(b));
        }
    }

    proof fn lemma_reading_single(self, n: Cell)
        ensures
            self.reading(seq![n]) == square_letters(self.letter_at(n)).reverse(),
            self.spelled(seq![n]) == square_letters(self.letter_at(n)),
    {
        assert(seq![n].drop_last() =~= Seq::<Cell>::empty());
        assert(seq![n].last() == n);
        assert(self.reading(Seq::<Cell>::empty()) =~= Seq::<char>::empty());
        assert(self.spelled(Seq::<Cell>::empty()) =~= Seq::<char>::empty());
        assert(self.reading(seq![n]) =~= square_letters(self.letter_at(n)).reverse());
        assert(self.spelled(seq![n]) =~= square_letters(self.letter_at(n)));
    }

    /// Reading a walk gives, backwards, what the reversed walk spells.
    proof fn lemma_reading_reverse(self, p: Seq<Cell>)
        ensures
            self.reading(p) == self.spelled(p.reverse()).reverse(),
        decreases p.len(),
    {
        if p.len() == 0 {
            assert(p.reverse() =~= Seq::<Cell>::empty());
            assert(self.spelled(p.reverse()).reverse() =~= Seq::<char>::empty());
        } else {
            let q = p.drop_last();
            let x = p.last();
            assert(p.reverse() =~= seq![x] + q.reverse());
            self.lemma_spelled_concat(seq![x], q.reverse());
            self.lemma_reading_single(x);
            self.lemma_reading_reverse(q);
            let a = square_letters(self.letter_at(x));
            let b = self.spelled(q.reverse());
            assert((a + b).reverse() =~= b.reverse() + a.reverse());
        }
    }

    /// A trail walked the other way is a trail.
    proof fn lemma_trail_reverse(p: Seq<Cell>)
        requires
            is_trail(p),
        ensures
            is_trail(p.reverse()),
    {
        let r = p.reverse();
        let n = p.len();
        assert forall|i: int| 0 <= i < r.len() implies in_grid(#[trigger] r[i]) by {
            assert(r[i] == p[n - 1 - i]);
        }
        assert forall|i: int, j: int| 0 <= i < r.len() && 0 <= j < r.len() && i != j implies r[i]
            != r[j] by {
            assert(r[i] == p[n - 1 - i] && r[j] == p[n - 1 - j]);
        }
        assert forall|i: int| 0 <= i < r.len() - 1 implies adjacent_cells(
            #[trigger] r[i],
            r[i + 1],
        ) by {
            assert(r[i] == p[n - 1 - i] && r[i + 1] == p[n - 2 - i]);
            assert(adjacent_cells(p[n - 2 - i], p[n - 1 - i]));
            assert(in_grid(p[n - 2 - i]));
        }
    }

    proof fn lemma_trail_push(pre: Seq<Cell>, n: Cell)
        requires
            is_trail(pre),
            adjacent_cells(pre.last(), n),
            !pre.contains(n),
        ensures
            is_trail(pre.push(n)),
    {
        let q = pre.push(n);
        assert forall|i: int| 0 <= i < q.len() implies in_grid(#[trigger] q[i]) by {
            if i < pre.len() {
                assert(q[i] == pre[i]);
            }
        }
        assert forall|i: int, j: int| 0 <= i < q.len() && 0 <= j < q.len() && i != j implies q[i]
            != q[j] by {
            if i < pre.len() && j < pre.len() {
                assert(q[i] == pre[i] && q[j] == pre[j]);
            } else if i < pre.len() {
                assert(q[i] == pre[i]);
            } else if j < pre.len() {
                assert(q[j] == pre[j]);
            }
        }
        assert forall|i: int| 0 <= i < q.len() - 1 implies adjacent_cells(
            #[trigger] q[i],
            q[i + 1],
        ) by {
            if i < pre.len() - 1 {
                assert(q[i] == pre[i] && q[i + 1] == pre[i + 1]);
            }
        }
    }

    proof fn lemma_trail_next(pre: Seq<Cell>, s: Seq<Cell>)
        requires
            pre.len() >= 1,
            s.len() >= 1,
            is_trail(pre + s),
        ensures
            adjacent_cells(pre.last(), s[0]),
            !pre.contains(s[0]),
            is_trail(pre),
    {
        let q = pre + s;
        let k = pre.len() - 1;
        assert(q[k] == pre.last());
        assert(q[k + 1] == s[0]);
        if pre.contains(s[0]) {
            let j = choose|j: int| 0 <= j < pre.len() && #[trigger] pre[j] == s[0];
            assert(q[j] == s[0]);
        }
        assert forall|i: int| 0 <= i < pre.len() implies in_grid(#[trigger] pre[i]) by {
            assert(q[i] == pre[i]);
        }
        assert forall|i: int, j: int|
            0 <= i < pre.len() && 0 <= j < pre.len() && i != j implies pre[i] != pre[j] by {
            assert(q[i] == pre[i] && q[j] == pre[j]);
        }
        assert forall|i: int| 0 <= i < pre.len() - 1 implies adjacent_cells(
            #[trigger] pre[i],
            pre[i + 1],
        ) by {
            assert(q[i] == pre[i] && q[i + 1] == pre[i + 1]);
        }
    }

    proof fn lemma_stop_here(self, pre: Seq<Cell>, node: TrieNode, w: Seq<char>)
        requires
            is_trail(pre),
        ensures
            self.extends_to_word(pre, node, Seq::empty(), w) <==> (byte_len(w) > 3
                && node.stored() == Some(w)),
    {
        assert(pre + Seq::<Cell>::empty() =~= pre);
        assert(self.reading(Seq::empty()) =~= Seq::<char>::empty());
        node.lemma_lookup_empty();
    }

    proof fn lemma_split_first(self, pre: Seq<Cell>, n: Cell, rest: Seq<Cell>)
        ensures
            pre + (seq![n] + rest) == pre.push(n) + rest,
            self.reading(seq![n] + rest) == square_letters(self.letter_at(n)).reverse()
                + self.reading(rest),
    {
        assert(pre + (seq![n] + rest) =~= pre.push(n) + rest);
        self.lemma_reading_concat(seq![n], rest);
        self.lemma_reading_single(n);
    }

    proof fn lemma_step_none(self, pre: Seq<Cell>, node: TrieNode, n: Cell, w: Seq<char>)
        requires
            node.node_at(square_letters(self.letter_at(n)).reverse()) is None,
        ensures
            !self.reachable_via(pre, node, seq![n], w),
    {
        assert forall|s: Seq<Cell>|
            s.len() >= 1 && seq![n].contains(s[0]) implies !#[trigger] self.extends_to_word(
            pre,
            node,
            s,
            w,
        ) by {
            assert(seq![n][0] == n);
            let rest = s.drop_first();
            assert(s =~= seq![n] + rest);
            self.lemma_split_first(pre, n, rest);
            node.lemma_lookup_concat(square_letters(self.letter_at(n)).reverse(), self.reading(rest));
        }
    }

    proof fn lemma_step_some(
        self,
        pre: Seq<Cell>,
        node: TrieNode,
        n: Cell,
        next: TrieNode,
        w: Seq<char>,
    )
        requires
            node.node_at(square_letters(self.letter_at(n)).reverse()) == Some(next),
        ensures
            self.reachable_via(pre, node, seq![n], w) <==> self.reachable_word(
                pre.push(n),
                next,
                w,
            ),
    {
        let key = square_letters(self.letter_at(n)).reverse();
        if self.reachable_via(pre, node, seq![n], w) {
            let s = choose|s: Seq<Cell>|
                s.len() >= 1 && seq![n].contains(s[0]) && #[trigger] self.extends_to_word(
                    pre,
                    node,
                    s,
                    w,
                );
            assert(seq![n][0] == n);
            let rest = s.drop_first();
            assert(s =~= seq![n] + rest);
            self.lemma_split_first(pre, n, rest);
            node.lemma_lookup_concat(key, self.reading(rest));
            assert(self.extends_to_word(pre.push(n), next, rest, w));
        }
        if self.reachable_word(pre.push(n), next, w) {
            let rest = choose|rest: Seq<Cell>| #[trigger]
                self.extends_to_word(pre.push(n), next, rest, w);
            let s = seq![n] + rest;
            self.lemma_split_first(pre, n, rest);
            node.lemma_lookup_concat(key, self.reading(rest));
            assert(s[0] == n);
            assert(seq![n].contains(s[0]));
            assert(self.extends_to_word(pre, node, s, w));
        }
    }

    proof fn lemma_step_visited(self, pre: Seq<Cell>, node: TrieNode, n: Cell, w: Seq<char>)
        requires
            pre.len() >= 1,
            pre.contains(n),
        ensures
            !self.reachable_via(pre, node, seq![n], w),
    {
        assert forall|s: Seq<Cell>|
            s.len() >= 1 && seq![n].contains(s[0]) implies !#[trigger] self.extends_to_word(
            pre,
            node,
            s,
            w,
        ) by {
            assert(seq![n][0] == n);
            if is_trail(pre + s) {
                Self::lemma_trail_next(pre, s);
            }
        }
    }

    proof fn lemma_via_take(self, pre: Seq<Cell>, node: TrieNode, cands: Seq<Cell>, k: int, w: Seq<char>)
        requires
            0 <= k < cands.len(),
        ensures
            self.reachable_via(pre, node, cands.take(k + 1), w) <==> (self.reachable_via(
                pre,
                node,
                cands.take(k),
                w,
            ) || self.reachable_via(pre, node, seq![cands[k]], w)),
    {
        if self.reachable_via(pre, node, cands.take(k + 1), w) {
            let s = choose|s: Seq<Cell>|
                s.len() >= 1 && cands.take(k + 1).contains(s[0]) && #[trigger] self.extends_to_word(
                    pre,
                    node,
                    s,
                    w,
                );
            let j = choose|j: int| 0 <= j < k + 1 && #[trigger] cands.take(k + 1)[j] == s[0];
            if j < k {
                assert(cands.take(k)[j] == s[0]);
            } else {
                assert(seq![cands[k]][0] == s[0]);
            }
        }
        if self.reachable_via(pre, node, cands.take(k), w) {
            let s = choose|s: Seq<Cell>|
                s.len() >= 1 && cands.take(k).contains(s[0]) && #[trigger] self.extends_to_word(
                    pre,
                    node,
                    s,
                    w,
                );
            let j = choose|j: int| 0 <= j < k && #[trigger] cands.take(k)[j] == s[0];
            assert(cands.take(k + 1)[j] == s[0]);
        }
        if self.reachable_via(pre, node, seq![cands[k]], w) {
            let s = choose|s: Seq<Cell>|
                s.len() >= 1 && seq![cands[k]].contains(s[0]) && #[trigger] self.extends_to_word(
                    pre,
                    node,
                    s,
                    w,
                );
            assert(seq![cands[k]][0] == s[0]);
            assert(cands.take(k + 1)[k] == s[0]);
        }
    }

    proof fn lemma_reach_split(self, pre: Seq<Cell>, node: TrieNode, nbrs: Seq<Cell>, w: Seq<char>)
        requires
            is_trail(pre),
            forall|c: Cell| nbrs.contains(c) <==> adjacent_cells(pre.last(), c),
        ensures
            self.reachable_word(pre, node, w) <==> (self.extends_to_word(
                pre,
                node,
                Seq::empty(),
                w,
            ) || self.reachable_via(pre, node, nbrs, w)),
    {
        if self.reachable_word(pre, node, w) {
            let s = choose|s: Seq<Cell>| #[trigger] self.extends_to_word(pre, node, s, w);
            if s.len() >= 1 {
                Self::lemma_trail_next(pre, s);
                assert(nbrs.contains(s[0]));
            } else {
                assert(s =~= Seq::<Cell>::empty());
            }
        }
        if self.reachable_via(pre, node, nbrs, w) {
            let s = choose|s: Seq<Cell>|
                s.len() >= 1 && nbrs.contains(s[0]) && #[trigger] self.extends_to_word(
                    pre,
                    node,
                    s,
                    w,
                );
        }
    }

    /// The letter on square `coord`.
    fn extract(&self, coord: Cell) -> (r: char)
        requires
            self.is_square(),
            in_grid(coord),
        ensures
            r == self.letter_at(coord),
    {
        let (x, y) = coord;
        self.letters[x][y]
    }

    /// The squares around `coord` that lie on the board.
    fn adjacent(coord: Cell) -> (r: Vec<Cell>)
        requires
            in_grid(coord),
        ensures
            forall|c: Cell| r@.contains(c) <==> adjacent_cells(coord, c),
            r@.no_duplicates(),
            ascending(r@),
    {
        let (x, y) = coord;
        let mut neighbours: Vec<Cell> = Vec::new();
        let mut xn: usize = 0;
        while xn <= 2
            invariant
                x == coord.0,
                y == coord.1,
                xn <= 3,
                in_grid(coord),
                neighbours@.no_duplicates(),
                ascending(neighbours@),
                forall|c: Cell| #[trigger]
                    neighbours@.contains(c) <==> (adjacent_cells(coord, c) && scanned(coord, c, xn as int, 0)),
            decreases 3 - xn,
        {
            let mut yn: usize = 0;
            while yn <= 2
                invariant
                    x == coord.0,
                    y == coord.1,
                    xn <= 2,
                    yn <= 3,
                    in_grid(coord),
                    neighbours@.no_duplicates(),
                    ascending(neighbours@),
                    forall|c: Cell| #[trigger]
                        neighbours@.contains(c) <==> (adjacent_cells(coord, c) && scanned(coord, c, xn as int, yn as int)),
                decreases 3 - yn,
            {
                let x_new = (x + xn) as isize - 1;
                let y_new = (y + yn) as isize - 1;
                let ghost prev = neighbours@;
                if !(x_new == x as isize && y_new == y as isize) && x_new < 4 && x_new >= 0 && y_new < 4
                    && y_new >= 0 {
                    let c: Cell = (x_new as usize, y_new as usize);
                    proof {
                        assert(c.0 + 1 == x + xn && c.1 + 1 == y + yn);
                        assert(!scanned(coord, c, xn as int, yn as int));
                        assert(!prev.contains(c));
                    }
                    neighbours.push(c);
                    proof {
                        assert(neighbours@ == prev.push(c));
                        assert forall|i: int, j: int| 0 <= i < j < neighbours@.len() implies cell_before(
                            #[trigger] neighbours@[i],
                            #[trigger] neighbours@[j],
                        ) by {
                            assert(neighbours@[i] == prev[i]);
                            if j < prev.len() {
                                assert(neighbours@[j] == prev[j]);
                            } else {
                                assert(prev.contains(prev[i]));
                            }
                        }
                        assert forall|d: Cell| #[trigger]
                            neighbours@.contains(d) <==> (adjacent_cells(coord, d) && scanned(coord, d, xn as int, yn + 1)) by {
                            if d == c {
                                assert(neighbours@[neighbours@.len() - 1] == c);
                            } else {
                                if neighbours@.contains(d) {
                                    let k = choose|k: int|
                                        0 <= k < neighbours@.len() && #[trigger] neighbours@[k] == d;
                                    assert(prev[k] == d);
                                    assert(prev.contains(d));
                                }
                                if prev.contains(d) {
                                    let k = choose|k: int| 0 <= k < prev.len() && #[trigger] prev[k] == d;
                                    assert(neighbours@[k] == d);
                                }
                            }
                        }
                    }
                } else {
                    proof {
                        assert forall|d: Cell| #[trigger]
                            neighbours@.contains(d) <==> (adjacent_cells(coord, d) && scanned(coord, d, xn as int, yn + 1)) by {
                            if d.0 + 1 == x + xn && d.1 + 1 == y + yn {
                                assert(!adjacent_cells(coord, d));
                            }
                        }
                    }
                }
                yn += 1;
            }
            proof {
                assert forall|d: Cell| #[trigger]
                    neighbours@.contains(d) <==> (adjacent_cells(coord, d) && scanned(coord, d, xn + 1, 0)) by {
                    if adjacent_cells(coord, d) {
                        assert(scanned(coord, d, xn as int, 3) <==> scanned(coord, d, xn + 1, 0));
                    }
                }
            }
            xn += 1;
        }
        proof {
            assert forall|d: Cell| #[trigger] neighbours@.contains(d) <==> adjacent_cells(coord, d) by {
                if adjacent_cells(coord, d) {
                    assert(scanned(coord, d, 3, 0));
                }
            }
        }
        neighbours
    }

    /// Explores every trail that continues `visited` with
    /// `current_location`, the trie being read from `node` (where reading
    /// `visited` has led), and appends to `found_words` the word of every
    /// node that such a trail leads to, when it is longer than three bytes.
    fn depth_first_search(
        visited: &Vec<Cell>,
        board: &BoggleBoard,
        current_location: Cell,
        node: &TrieNode,
        found_words: &mut Vec<String>,
    )
        requires
            board.is_square(),
            is_trail(visited@.push(current_location)),
        ensures
            final(found_words)@.len() >= old(found_words)@.len(),
            final(found_words)@.take(old(found_words)@.len() as int) == old(found_words)@,
            forall|w: Seq<char>| #[trigger]
                has_text(final(found_words)@, w) <==> (has_text(old(found_words)@, w)
                    || board.reachable_via(visited@, *node, seq![current_location], w)),
            forall|i: int|
                old(found_words)@.len() <= i < final(found_words)@.len() ==> board.reachable_via(
                    visited@,
                    *node,
                    seq![current_location],
                    (#[trigger] final(found_words)@[i])@,
                ),
        decreases *node,
    {
        let ghost start_words = found_words@;
        proof {
            let q = visited@.push(current_location);
            assert(q[visited@.len() as int] == current_location);
            assert(in_grid(current_location));
            assert(start_words.take(start_words.len() as int) =~= start_words);
        }
        let current_letter = board.extract(current_location);
        let next = match step_square(node, current_letter) {
            Some(n) => n,
            None => {
                proof {
                    assert forall|w: Seq<char>|
                        !board.reachable_via(visited@, *node, seq![current_location], w) by {
                        board.lemma_step_none(visited@, *node, current_location, w);
                    }
                }
                return;
            },
        };
        proof {
            node.lemma_node_at_smaller(square_letters(current_letter).reverse());
        }
        let mut new_visited = copy_cells(visited);
        new_visited.push(current_location);
        let ghost pre = new_visited@;
        proof {
            assert(pre.drop_last() =~= visited@);
            assert(pre.last() == current_location);
        }
        match next.stored_word() {
            Some(word) => {
                if word.as_str().len() > 3 {
                    proof {
                        lemma_has_text_push(found_words@, word);
                    }
                    found_words.push(word);
                    proof {
                        assert(found_words@.take(start_words.len() as int) =~= start_words);
                    }
                }
            },
            None => {},
        }
        proof {
            assert forall|w: Seq<char>| #[trigger]
                has_text(found_words@, w) <==> (has_text(start_words, w)
                    || board.extends_to_word(pre, *next, Seq::empty(), w)) by {
                board.lemma_stop_here(pre, *next, w);
            }
            assert forall|i: int| start_words.len() <= i < found_words@.len() implies board.extends_to_word(
                pre,
                *next,
                Seq::empty(),
                (#[trigger] found_words@[i])@,
            ) by {
                board.lemma_stop_here(pre, *next, found_words@[i]@);
            }
        }
        let neighbours = BoggleBoard::adjacent(current_location);
        let mut k: usize = 0;
        while k < neighbours.len()
            invariant
                board.is_square(),
                is_trail(pre),
                pre == new_visited@,
                pre.len() >= 1,
                pre.last() == current_location,
                current_letter == board.letter_at(current_location),
                node.node_at(square_letters(current_letter).reverse()) == Some(*next),
                k <= neighbours@.len(),
                forall|c: Cell| neighbours@.contains(c) <==> adjacent_cells(current_location, c),
                found_words@.len() >= start_words.len(),
                found_words@.take(start_words.len() as int) == start_words,
                forall|w: Seq<char>| #[trigger]
                    has_text(found_words@, w) <==> (has_text(start_words, w)
                        || board.extends_to_word(pre, *next, Seq::empty(), w)
                        || board.reachable_via(pre, *next, neighbours@.take(k as int), w)),
                forall|i: int|
                    start_words.len() <= i < found_words@.len() ==> board.extends_to_word(
                        pre,
                        *next,
                        Seq::empty(),
                        (#[trigger] found_words@[i])@,
                    ) || board.reachable_via(pre, *next, neighbours@.take(k as int), found_words@[i]@),
            decreases neighbours@.len() - k,
        {
            let coord = neighbours[k];
            let ghost before = found_words@;
            proof {
                assert(neighbours@[k as int] == coord);
                assert(neighbours@.contains(coord));
                assert(adjacent_cells(current_location, coord));
            }
            if !contains_cell(&new_visited, coord) {
                proof {
                    Self::lemma_trail_push(pre, coord);
                    node.lemma_node_at_smaller(square_letters(current_letter).reverse());
                }
                BoggleBoard::depth_first_search(
                    &new_visited,
                    board,
                    coord,
                    next,
                    found_words,
                );
                proof {
                    assert forall|i: int| 0 <= i < start_words.len() implies found_words@.take(
                        start_words.len() as int,
                    )[i] == start_words[i] by {
                        assert(found_words@[i] == found_words@.take(before.len() as int)[i]);
                        assert(before[i] == before.take(start_words.len() as int)[i]);
                    }
                    assert(found_words@.take(start_words.len() as int) =~= start_words);
                }
            } else {
                proof {
                    assert forall|w: Seq<char>| !board.reachable_via(pre, *next, seq![coord], w) by {
                        board.lemma_step_visited(pre, *next, coord, w);
                    }
                }
            }
            proof {
                assert forall|w: Seq<char>| #[trigger]
                    has_text(found_words@, w) <==> (has_text(start_words, w)
                        || board.extends_to_word(pre, *next, Seq::empty(), w)
                        || board.reachable_via(pre, *next, neighbours@.take(k + 1), w)) by {
                    board.lemma_via_take(pre, *next, neighbours@, k as int, w);
                }
                assert forall|i: int| start_words.len() <= i < found_words@.len() implies board.extends_to_word(
                    pre,
                    *next,
                    Seq::empty(),
                    (#[trigger] found_words@[i])@,
                ) || board.reachable_via(pre, *next, neighbours@.take(k + 1), found_words@[i]@) by {
                    board.lemma_via_take(pre, *next, neighbours@, k as int, found_words@[i]@);
                    if i < before.len() {
                        assert(found_words@[i] == found_words@.take(before.len() as int)[i]);
                        assert(found_words@[i] == before[i]);
                    }
                }
            }
            k += 1;
        }
        proof {
            assert(neighbours@.take(neighbours@.len() as int) =~= neighbours@);
            assert forall|w: Seq<char>| #[trigger]
                has_text(found_words@, w) <==> (has_text(start_words, w)
                    || board.reachable_via(visited@, *node, seq![current_location], w)) by {
                board.lemma_reach_split(pre, *next, neighbours@, w);
                board.lemma_step_some(visited@, *node, current_location, *next, w);
            }
            assert forall|i: int| start_words.len() <= i < found_words@.len() implies board.reachable_via(
                visited@,
                *node,
                seq![current_location],
                (#[trigger] found_words@[i])@,
            ) by {
                board.lemma_reach_split(pre, *next, neighbours@, found_words@[i]@);
                board.lemma_step_some(visited@, *node, current_location, *next, found_words@[i]@);
            }
        }
    }

    proof fn lemma_solution_starts(self, trie: TrieNode, w: Seq<char>)
        ensures
            self.solution(trie, w) <==> exists|st: Cell|
                in_grid(st) && #[trigger] self.reachable_via(Seq::empty(), trie, seq![st], w),
    {
        if self.solution(trie, w) {
            let p = choose|p: Seq<Cell>| #[trigger] self.traces(trie, p, w);
            let st = p[0];
            assert(Seq::<Cell>::empty() + p =~= p);
            assert(in_grid(p[0]));
            assert(seq![st].contains(p[0])) by {
                assert(seq![st][0] == st);
            }
            assert(self.extends_to_word(Seq::empty(), trie, p, w));
            assert(self.reachable_via(Seq::empty(), trie, seq![st], w));
        }
        if exists|st: Cell| in_grid(st) && #[trigger] self.reachable_via(Seq::empty(), trie, seq![st], w) {
            let st = choose|st: Cell|
                in_grid(st) && #[trigger] self.reachable_via(Seq::empty(), trie, seq![st], w);
            let s = choose|s: Seq<Cell>|
                s.len() >= 1 && seq![st].contains(s[0]) && #[trigger] self.extends_to_word(
                    Seq::empty(),
                    trie,
                    s,
                    w,
                );
            assert(Seq::<Cell>::empty() + s =~= s);
            assert(self.traces(trie, s, w));
        }
    }

    /// Every word found on the board, each once: the words longer than three
    /// bytes that the trie holds at the end of a trail, a `q` square standing
    /// for "qu". When every word of the trie sits under its own path (as in a
    /// trie built from a word list), these are exactly the words of the trie
    /// that can be traced on the board.
    pub fn solve(&self, trie: &TrieNode) -> (r: Vec<String>)
        requires
            self.is_square(),
        ensures
            forall|w: Seq<char>| #[trigger] has_text(r@, w) <==> self.solution(*trie, w),
            trie.words_match_paths() ==> forall|w: Seq<char>| #[trigger] has_text(r@, w) <==> (
            trie.holds_word(w) && self.traceable(w)),
            distinct_texts(r@),
    {
        let mut words: Vec<String> = Vec::new();
        let mut x: usize = 0;
        while x < 4
            invariant
                self.is_square(),
                x <= 4,
                forall|w: Seq<char>| #[trigger]
                    has_text(words@, w) <==> self.found_before(*trie, w, x as int, 0),
            decreases 4 - x,
        {
            let mut y: usize = 0;
            while y < 4
                invariant
                    self.is_square(),
                    x < 4,
                    y <= 4,
                    forall|w: Seq<char>| #[trigger]
                        has_text(words@, w) <==> self.found_before(*trie, w, x as int, y as int),
                decreases 4 - y,
            {
                let empty_cells: Vec<Cell> = Vec::new();
                proof {
                    let q = empty_cells@.push((x, y));
                    assert(q =~= seq![(x, y)]);
                    assert(is_trail(q));
                }
                BoggleBoard::depth_first_search(
                    &empty_cells,
                    self,
                    (x, y),
                    trie,
                    &mut words,
                );
                proof {
                    assert(empty_cells@ =~= Seq::<Cell>::empty());
                    assert forall|w: Seq<char>| #[trigger]
                        has_text(words@, w) <==> self.found_before(*trie, w, x as int, y + 1) by {
                        if self.found_before(*trie, w, x as int, y + 1) {
                            let st = choose|st: Cell|
                                in_grid(st) && (st.0 < x || (st.0 == x && st.1 < y + 1))
                                    && #[trigger] self.reachable_via(Seq::empty(), *trie, seq![st], w);
                            if !(st.0 == x && st.1 == y) {
                                assert(self.found_before(*trie, w, x as int, y as int));
                            }
                        }
                        if self.found_before(*trie, w, x as int, y as int) {
                            let st = choose|st: Cell|
                                in_grid(st) && (st.0 < x || (st.0 == x && st.1 < y))
                                    && #[trigger] self.reachable_via(Seq::empty(), *trie, seq![st], w);
                            assert(in_grid(st) && (st.0 < x || (st.0 == x && st.1 < y + 1)));
                        }
                        if self.reachable_via(Seq::empty(), *trie, seq![(x, y)], w) {
                            let st: Cell = (x, y);
                            assert(in_grid(st) && (st.0 < x || (st.0 == x && st.1 < y + 1)));
                        }
                    }
                }
                y += 1;
            }
            proof {
                assert forall|w: Seq<char>| #[trigger]
                    has_text(words@, w) <==> self.found_before(*trie, w, x + 1, 0) by {
                    if self.found_before(*trie, w, x + 1, 0) {
                        let st = choose|st: Cell|
                            in_grid(st) && (st.0 < x + 1 || (st.0 == x + 1 && st.1 < 0))
                                && #[trigger] self.reachable_via(Seq::empty(), *trie, seq![st], w);
                        assert(in_grid(st) && (st.0 < x || (st.0 == x && st.1 < 4)));
                    }
                    if self.found_before(*trie, w, x as int, 4) {
                        let st = choose|st: Cell|
                            in_grid(st) && (st.0 < x || (st.0 == x && st.1 < 4))
                                && #[trigger] self.reachable_via(Seq::empty(), *trie, seq![st], w);
                        assert(in_grid(st) && (st.0 < x + 1 || (st.0 == x + 1 && st.1 < 0)));
                    }
                }
            }
            x += 1;
        }
        proof {
            assert forall|w: Seq<char>| #[trigger]
                has_text(words@, w) <==> self.solution(*trie, w) by {
                self.lemma_solution_starts(*trie, w);
                if self.found_before(*trie, w, 4, 0) {
                    let st = choose|st: Cell|
                        in_grid(st) && (st.0 < 4 || (st.0 == 4 && st.1 < 0))
                            && #[trigger] self.reachable_via(Seq::empty(), *trie, seq![st], w);
                }
                if exists|st: Cell| in_grid(st) && #[trigger] self.reachable_via(Seq::empty(), *trie, seq![st], w) {
                    let st = choose|st: Cell|
                        in_grid(st) && #[trigger] self.reachable_via(Seq::empty(), *trie, seq![st], w);
                    assert(in_grid(st) && (st.0 < 4 || (st.0 == 4 && st.1 < 0)));
                }
            }
        }
        let r = distinct_words(&words);
        proof {
            if trie.words_match_paths() {
                assert forall|w: Seq<char>| #[trigger] has_text(r@, w) <==> (trie.holds_word(w)
                    && self.traceable(w)) by {
                    lemma_solutions_spelled(*self, *trie, w);
                }
            }
        }
        r
    }

    /// Some square before (x, y), in row-major order, starts a trail that
    /// reaches `w`.
    pub open spec fn found_before(self, trie: TrieNode, w: Seq<char>, x: int, y: int) -> bool {
        exists|st: Cell|
            in_grid(st) && (st.0 < x || (st.0 == x && st.1 < y)) && #[trigger] self.reachable_via(
                Seq::empty(),
                trie,
                seq![st],
                w,
            )
    }
}

/// The letter that sample `k` of a draw picks.
pub open spec fn drawn_letter(letter_indices: Seq<usize>, k: int) -> char {
    LETTERS@[letter_indices[k] as int]
}

/// A draw of sixteen letters: positions into `LETTERS`.
pub open spec fn is_draw(letter_indices: Seq<usize>) -> bool {
    &&& letter_indices.len() == 16
    &&& forall|k: int| 0 <= k < 16 ==> #[trigger] letter_indices[k] < 26
}

/// The board whose squares carry, row by row, the letters of a draw.
pub open spec fn board_of_draw(b: BoggleBoard, letter_indices: Seq<usize>) -> bool {
    &&& b.is_square()
    &&& forall|x: int, y: int|
        0 <= x < 4 && 0 <= y < 4 ==> #[trigger] b.letters@[x]@[y] == drawn_letter(
            letter_indices,
            4 * x + y,
        )
}

/// How one square is shown: a space, the letter, then `u` after a `Q` and
/// a space after any other letter.
pub open spec fn square_text(c: char) -> Seq<char> {
    seq![' ', c, if c == 'Q' { 'u' } else { ' ' }]
}

/// How one row is shown.
pub open spec fn row_text(row: Seq<char>) -> Seq<char>
    decreases row.len(),
{
    if row.len() == 0 {
        Seq::empty()
    } else {
        row_text(row.drop_last()) + square_text(row.last())
    }
}

/// The rows shown one after the other, each followed by a line break.
pub open spec fn rows_text(rows: Seq<Vec<char>>) -> Seq<char>
    decreases rows.len(),
{
    if rows.len() == 0 {
        Seq::empty()
    } else {
        rows_text(rows.drop_last()) + row_text(rows.last()@) + seq!['\n']
    }
}

/// How a board is shown: its rows, without the final line break.
pub open spec fn board_text(rows: Seq<Vec<char>>) -> Seq<char> {
    let t = rows_text(rows);
    if t.len() > 0 {
        t.drop_last()
    } else {
        t
    }
}

impl BoggleBoard {
    /// The board carrying, row by row, the letters that a draw of sixteen
    /// positions into `LETTERS` picks.
    pub fn new(letter_indices: &Vec<usize>) -> (r: BoggleBoard)
        requires
            is_draw(letter_indices@),
        ensures
            board_of_draw(r, letter_indices@),
    {
        let mut letters: Vec<Vec<char>> = Vec::new();
        let mut x: usize = 0;
        while x < 4
            invariant
                x <= 4,
                is_draw(letter_indices@),
                letters@.len() == x,
                forall|a: int| 0 <= a < x ==> (#[trigger] letters@[a])@.len() == 4,
                forall|a: int, y: int|
                    0 <= a < x && 0 <= y < 4 ==> #[trigger] letters@[a]@[y] == drawn_letter(
                        letter_indices@,
                        4 * a + y,
                    ),
            decreases 4 - x,
        {
            let mut row: Vec<char> = Vec::new();
            let mut y: usize = 0;
            while y < 4
                invariant
                    x < 4,
                    y <= 4,
                    is_draw(letter_indices@),
                    row@.len() == y,
                    forall|b: int| 0 <= b < y ==> #[trigger] row@[b] == drawn_letter(letter_indices@, 4 * x + b),
                decreases 4 - y,
            {
                let k = 4 * x + y;
                assert(letter_indices@[k as int] < 26);
                row.push(LETTERS[letter_indices[k]]);
                y += 1;
            }
            letters.push(row);
            x += 1;
        }
        BoggleBoard { letters }
    }

    /// Replaces the letters with those of a new draw.
    pub fn _randomise(&mut self, letter_indices: &Vec<usize>)
        requires
            is_draw(letter_indices@),
        ensures
            board_of_draw(*final(self), letter_indices@),
    {
        self.letters = BoggleBoard::new(letter_indices).letters;
    }

    /// The board as shown to people: each square as a space, the letter and
    /// a space (`u` after a `Q`), rows on lines of their own.
    pub fn display_text(&self) -> (r: String)
        ensures
            r@ == board_text(self.letters@),
    {
        let mut out: Vec<char> = Vec::new();
        let mut i: usize = 0;
        while i < self.letters.len()
            invariant
                i <= self.letters@.len(),
                out@ == rows_text(self.letters@.take(i as int)),
            decreases self.letters@.len() - i,
        {
            let row = &self.letters[i];
            let ghost before = out@;
            let mut j: usize = 0;
            while j < row.len()
                invariant
                    j <= row@.len(),
                    out@ == before + row_text(row@.take(j as int)),
                decreases row@.len() - j,
            {
                let letter = row[j];
                out.push(' ');
                out.push(letter);
                if letter == 'Q' {
                    out.push('u');
                } else {
                    out.push(' ');
                }
                proof {
                    assert(row@.take(j + 1).drop_last() =~= row@.take(j as int));
                    assert(row@.take(j + 1).last() == letter);
                    assert(out@ =~= before + row_text(row@.take(j + 1)));
                }
                j += 1;
            }
            out.push('\n');
            proof {
                assert(row@.take(row@.len() as int) =~= row@);
                assert(self.letters@.take(i + 1).drop_last() =~= self.letters@.take(i as int));
                assert(self.letters@.take(i + 1).last() == *row);
                assert(out@ =~= rows_text(self.letters@.take(i + 1)));
            }
            i += 1;
        }
        proof {
            assert(self.letters@.take(self.letters@.len() as int) =~= self.letters@);
        }
        if out.len() > 0 {
            out.pop();
        }
        string_from_chars(&out)
    }
}

/// What the solver finds, for a trie in which every word sits under its
/// own path: exactly the words of the trie that can be traced on the board.
pub proof fn lemma_solutions_spelled(board: BoggleBoard, trie: TrieNode, w: Seq<char>)
    requires
        trie.words_match_paths(),
    ensures
        board.solution(trie, w) <==> (trie.holds_word(w) && board.traceable(w)),
{
    if board.solution(trie, w) {
        let p = choose|p: Seq<Cell>| #[trigger] board.traces(trie, p, w);
        let text = board.reading(p);
        assert(trie.lookup(text) == Some(w));
        assert(text == crate::trie::word_key(w));
        board.lemma_reading_reverse(p);
        let sp = board.spelled(p.reverse());
        assert(sp.reverse() == w.reverse());
        assert(sp =~= sp.reverse().reverse());
        assert(w =~= w.reverse().reverse());
        BoggleBoard::lemma_trail_reverse(p);
        assert(is_trail(p.reverse()) && board.spelled(p.reverse()) == w);
    }
    if trie.holds_word(w) && board.traceable(w) {
        let p = choose|p: Seq<Cell>| is_trail(p) && #[trigger] board.spelled(p) == w;
        let q = p.reverse();
        BoggleBoard::lemma_trail_reverse(p);
        board.lemma_reading_reverse(q);
        assert(q.reverse() =~= p);
        assert(board.reading(q) == crate::trie::word_key(w));
        assert(board.traces(trie, q, w));
    }
}

/// Along a walk that meets no `q` square, each square gives exactly its
/// own letter: the walk spells its squares' letters, one by one.
pub proof fn lemma_spelled_letter_by_letter(board: BoggleBoard, p: Seq<Cell>)
    requires
        forall|i: int| 0 <= i < p.len() ==> board.letter_at(#[trigger] p[i]) != 'q',
    ensures
        board.spelled(p).len() == p.len(),
        forall|i: int| 0 <= i < p.len() ==> #[trigger] board.spelled(p)[i] == board.letter_at(p[i]),
    decreases p.len(),
{
    if p.len() > 0 {
        let q = p.drop_last();
        assert forall|i: int| 0 <= i < q.len() implies board.letter_at(#[trigger] q[i]) != 'q' by {
            assert(q[i] == p[i]);
        }
        lemma_spelled_letter_by_letter(board, q);
        assert(board.letter_at(p[p.len() - 1]) != 'q');
        assert(square_letters(board.letter_at(p.last())) =~= seq![board.letter_at(p.last())]);
        assert forall|i: int| 0 <= i < p.len() implies #[trigger] board.spelled(p)[i]
            == board.letter_at(p[i]) by {
            if i < q.len() {
                assert(q[i] == p[i]);
            }
        }
    }
}

/// On a board without a `q` square, and a trie in which every word sits
/// under its own path, the solver finds a word exactly when the trie holds
/// it, it is longer than three bytes, and some trail carries its letters
/// one by one, one letter on each square, each square its own letter.
pub proof fn lemma_solutions_letter_by_letter(board: BoggleBoard, trie: TrieNode, w: Seq<char>)
    requires
        trie.words_match_paths(),
        forall|c: Cell| in_grid(c) ==> #[trigger] board.letter_at(c) != 'q',
    ensures
        board.solution(trie, w) <==> (trie.holds_word(w) && byte_len(w) > 3 && exists|p: Seq<Cell>|
            is_trail(p) && p.len() == w.len() && forall|i: int|
                0 <= i < p.len() ==> #[trigger] board.letter_at(p[i]) == w[i]),
{
    lemma_solutions_spelled(board, trie, w);
    if board.solution(trie, w) {
        let p = choose|p: Seq<Cell>| is_trail(p) && #[trigger] board.spelled(p) == w;
        assert forall|i: int| 0 <= i < p.len() implies board.letter_at(#[trigger] p[i]) != 'q' by {
            assert(in_grid(p[i]));
        }
        lemma_spelled_letter_by_letter(board, p);
        assert(forall|i: int| 0 <= i < p.len() ==> #[trigger] board.letter_at(p[i]) == w[i]);
    }
    if trie.holds_word(w) && byte_len(w) > 3 && exists|p: Seq<Cell>|
        is_trail(p) && p.len() == w.len() && forall|i: int|
            0 <= i < p.len() ==> #[trigger] board.letter_at(p[i]) == w[i] {
        let p = choose|p: Seq<Cell>|
            is_trail(p) && p.len() == w.len() && forall|i: int|
                0 <= i < p.len() ==> #[trigger] board.letter_at(p[i]) == w[i];
        assert forall|i: int| 0 <= i < p.len() implies board.letter_at(#[trigger] p[i]) != 'q' by {
            assert(in_grid(p[i]));
        }
        lemma_spelled_letter_by_letter(board, p);
        assert(board.spelled(p) =~= w);
        assert(board.traceable(w));
    }
}

/// The words found on a board with a dictionary trie built from `lines`
/// are exactly the dictionary lines longer than three bytes that can be
/// traced on the board.
pub proof fn lemma_dictionary_solutions(
    lines: Seq<String>,
    trie: TrieNode,
    board: BoggleBoard,
    w: Seq<char>,
)
    requires
        forall|p: Seq<char>| #[trigger]
            trie.lookup(p) == if crate::trie::listed_word(lines, lines.len() as int, p.reverse()) {
                Some(p.reverse())
            } else {
                None
            },
    ensures
        board.solution(trie, w) <==> (crate::trie::listed_word(lines, lines.len() as int, w)
            && board.traceable(w)),
{
    assert(trie.words_match_paths()) by {
        assert forall|p: Seq<char>| trie.lookup(p) is Some implies p == crate::trie::word_key(
            #[trigger] trie.lookup(p).unwrap(),
        ) by {
            assert(p.reverse().reverse() =~= p);
        }
    }
    crate::trie::lemma_built_trie_words(lines, trie, w);
    lemma_solutions_spelled(board, trie, w);
}

/// Reads the letters of a square, last one first, from `node`: the node
/// they lead to, if any.
fn step_square(node: &TrieNode, letter: char) -> (r: Option<&TrieNode>)
    ensures
        match r {
            Some(n) => node.node_at(square_letters(letter).reverse()) == Some(*n),
            None => node.node_at(square_letters(letter).reverse()) is None,
        },
{
    if letter == 'q' {
        proof {
            assert(square_letters(letter).reverse() =~= seq!['u'] + seq!['q']);
            node.lemma_node_at_concat(seq!['u'], seq!['q']);
            node.lemma_node_at_single('u');
        }
        match node.get_child('u') {
            Some(u) => {
                proof {
                    u.lemma_node_at_single('q');
                }
                u.get_child('q')
            },
            None => None,
        }
    } else {
        proof {
            assert(square_letters(letter).reverse() =~= seq![letter]);
            node.lemma_node_at_single(letter);
        }
        node.get_child(letter)
    }
}

/// Square `a` comes before square `b` row by row: in an earlier row, or
/// further left in the same row.
pub open spec fn cell_before(a: Cell, b: Cell) -> bool {
    a.0 < b.0 || (a.0 == b.0 && a.1 < b.1)
}

/// The squares are listed row by row, each before the next.
pub open spec fn ascending(cells: Seq<Cell>) -> bool {
    forall|i: int, j: int| 0 <= i < j < cells.len() ==> cell_before(#[trigger] cells[i], #[trigger] cells[j])
}

/// The scan of the squares around `coord`, row offset by row offset and
/// column offset by column offset, has passed square `c`.
spec fn scanned(coord: Cell, c: Cell, xn: int, yn: int) -> bool {
    c.0 + 1 < coord.0 + xn || (c.0 + 1 == coord.0 + xn && c.1 + 1 < coord.1 + yn)
}

/// `v` holds the square `c`.
fn contains_cell(v: &Vec<Cell>, c: Cell) -> (r: bool)
    ensures
        r == v@.contains(c),
{
    let mut i: usize = 0;
    while i < v.len()
        invariant
            i <= v@.len(),
            forall|j: int| 0 <= j < i ==> v@[j] != c,
        decreases v@.len() - i,
    {
        if v[i].0 == c.0 && v[i].1 == c.1 {
            assert(v@[i as int] == c);
            return true;
        }
        i += 1;
    }
    false
}

/// A copy of a list of squares.
fn copy_cells(v: &Vec<Cell>) -> (r: Vec<Cell>)
    ensures
        r@ == v@,
{
    let mut out: Vec<Cell> = Vec::new();
    let mut i: usize = 0;
    while i < v.len()
        invariant
            i <= v@.len(),
            out@ == v@.take(i as int),
        decreases v@.len() - i,
    {
        out.push(v[i]);
        assert(v@.take(i + 1) == v@.take(i as int).push(v@[i as int]));
        i += 1;
    }
    assert(v@.take(v@.len() as int) =~= v@);
    out
}

/// A copy of a list of letters.
pub fn copy_chars(v: &Vec<char>) -> (r: Vec<char>)
    ensures
        r@ == v@,
{
    let mut out: Vec<char> = Vec::new();
    let mut i: usize = 0;
    while i < v.len()
        invariant
            i <= v@.len(),
            out@ == v@.take(i as int),
        decreases v@.len() - i,
    {
        out.push(v[i]);
        assert(v@.take(i + 1) == v@.take(i as int).push(v@[i as int]));
        i += 1;
    }
    assert(v@.take(v@.len() as int) =~= v@);
    out
}

} // verus!
