//! Sessions and their players: the rooms a server keeps, who plays in them,
//! which words each player has found and what they score.
use std::collections::VecDeque;

use rand::Rng;
use vstd::prelude::*;

use crate::board::{BoggleBoard, board_of_draw, is_draw};
use crate::entries::{
    find_key, has_key, index_of_key, insert_entry, is_first_key, lemma_first_key_exists, remove_entry,
    keys_distinct, value_of_key,
};
use crate::responses::ButtonState;
use crate::text::{has_text, string_from_chars};
use crate::tokens::{fresh_token, token_family_size};
use crate::trie::TrieNode;

verus! {

/// Points for a found word, by its length in bytes.
pub const SCORES: [(usize, usize); 13] = [
    (4, 2),
    (5, 4),
    (6, 7),
    (7, 12),
    (8, 20),
    (9, 33),
    (10, 54),
    (11, 88),
    (12, 143),
    (13, 232),
    (14, 376),
    (15, 609),
    (16, 986),
];

/// The points `SCORES` gives a word of `len` bytes, if it lists that length.
pub open spec fn word_score(len: usize) -> Option<usize> {
    if len == 4 {
        Some(2)
    } else if len == 5 {
        Some(4)
    } else if len == 6 {
        Some(7)
    } else if len == 7 {
        Some(12)
    } else if len == 8 {
        Some(20)
    } else if len == 9 {
        Some(33)
    } else if len == 10 {
        Some(54)
    } else if len == 11 {
        Some(88)
    } else if len == 12 {
        Some(143)
    } else if len == 13 {
        Some(232)
    } else if len == 14 {
        Some(376)
    } else if len == 15 {
        Some(609)
    } else if len == 16 {
        Some(986)
    } else {
        None
    }
}

/// The points for a word of `len` bytes, looked up in `SCORES`.
pub fn score_for_length(len: usize) -> (r: Option<usize>)
    ensures
        r == word_score(len),
{
    let table = SCORES;
    assert(table@ =~= seq![
        (4usize, 2usize),
        (5, 4),
        (6, 7),
        (7, 12),
        (8, 20),
        (9, 33),
        (10, 54),
        (11, 88),
        (12, 143),
        (13, 232),
        (14, 376),
        (15, 609),
        (16, 986),
    ]);
    let mut i: usize = 0;
    while i < 13
        invariant
            i <= 13,
            table@.len() == 13,
            forall|j: int| 0 <= j < 13 ==> #[trigger] table@[j].0 == j + 4 && table@[j].1
                == word_score((j + 4) as usize).unwrap(),
            forall|j: int| 0 <= j < i ==> #[trigger] table@[j].0 != len,
        decreases 13 - i,
    {
        if table[i].0 == len {
            return Some(table[i].1);
        }
        i += 1;
    }
    assert(len < 4 || len > 16) by {
        if 4 <= len <= 16 {
            assert(table@[len - 4].0 == len);
        }
    }
    None
}

/// Where a session stands: waiting in the lobby, or in a round.
#[derive(PartialEq, Eq, Structural)]
pub enum GameStatus {
    InLobby,
    InProgress,
}

/// Whether a player's word was found by them alone, or by someone else too.
#[derive(Debug, Clone, PartialEq, Eq, Structural)]
pub enum Found {
    Once,
    Twice,
}

/// A word a player found, and whether others found it too.
#[derive(Debug, Clone, PartialEq, Eq)]
pub struct Guess {
    pub word: String,
    pub found: Found,
}

/// A player: their name, the words they found (latest first) and score.
#[derive(Debug, Clone)]
pub struct Player {
    pub name: String,
    pub valid_guesses: VecDeque<Guess>,
    pub score: usize,
}

/// One session: its board, its solutions, the words found once and twice,
/// its players by token, the times (in nanoseconds on the server's clock)
/// at which its round started and at which it expires, its status and how
/// many rounds it has started.
pub struct Game {
    pub board: BoggleBoard,
    pub name: String,
    pub solutions: Vec<String>,
    pub found_once: Vec<String>,
    pub found_twice: Vec<String>,
    pub players: Vec<(String, Player)>,
    pub start_time: u64,
    pub expiration_time: u64,
    pub status: GameStatus,
    pub game_number: usize,
}

/// All sessions, by room id.
pub struct GameState {
    pub games: Vec<(String, Game)>,
}

impl Game {
    /// No two players share a token.
    pub open spec fn wf(self) -> bool {
        keys_distinct(self.players@)
    }
}

impl GameState {
    /// No two sessions share an id, and no session has two players under
    /// one token.
    pub open spec fn wf(self) -> bool {
        &&& keys_distinct(self.games@)
        &&& forall|i: int| 0 <= i < self.games@.len() ==> (#[trigger] self.games@[i]).1.wf()
    }
}

/// A character of a token: an ASCII letter or digit.
pub open spec fn is_token_char(c: char) -> bool {
    ('A' <= c && c <= 'Z') || ('a' <= c && c <= 'z') || ('0' <= c && c <= '9')
}

/// A token: twelve ASCII letters and digits.
pub open spec fn is_token(t: Seq<char>) -> bool {
    t.len() == 12 && forall|i: int| 0 <= i < 12 ==> is_token_char(#[trigger] t[i])
}

/// One character drawn uniformly at random from the ASCII letters and
/// digits, by `rand`'s `Alphanumeric` distribution on the thread's
/// generator. Only the range of the result is stated: it rests on chance.
#[verifier::external_body]
fn sample_alphanumeric() -> (c: char)
    ensures
        is_token_char(c),
{
    char::from(rand::thread_rng().sample(rand::distributions::Alphanumeric))
}

impl Player {
    /// A player who has found nothing yet.
    pub open spec fn is_fresh(self, name: Seq<char>) -> bool {
        &&& self.name@ == name
        &&& self.valid_guesses@.len() == 0
        &&& self.score == 0
    }
}

impl Game {
    /// A new session called `name` on the board of the draw `letter_indices`
    /// (four rows of four letters), in the lobby, with no
    /// players, no solutions and no words found, started and expiring at
    /// `now`.
    fn new(name: String, letter_indices: &Vec<usize>, now: u64) -> (g: Game)
        requires
            is_draw(letter_indices@),
        ensures
            board_of_draw(g.board, letter_indices@),
            g.name == name,
            g.solutions@.len() == 0,
            g.found_once@.len() == 0,
            g.found_twice@.len() == 0,
            g.players@.len() == 0,
            g.start_time == now,
            g.expiration_time == now,
            g.status == GameStatus::InLobby,
            g.game_number == 0,
    {
        Game {
            board: BoggleBoard::new(letter_indices),
            name,
            solutions: Vec::new(),
            found_once: Vec::new(),
            found_twice: Vec::new(),
            players: Vec::new(),
            start_time: now,
            expiration_time: now,
            status: GameStatus::InLobby,
            game_number: 0,
        }
    }

    /// Adds a player called `player_name` under a new random token, and
    /// returns the token. When the drawn token is already taken, the first
    /// free token of a fixed family is used instead, so every player already
    /// there stays (only in a room of `2^60` players or more could a drawn
    /// token that is taken replace its player).
    pub fn new_player(&mut self, player_name: String) -> (token: String)
        ensures
            is_token(token@),
            old(self).players@.len() < token_family_size() ==> !has_key(old(self).players@, token@)
                && final(self).players@.len() == old(self).players@.len() + 1
                && final(self).players@.take(old(self).players@.len() as int) == old(self).players@
                && final(self).players@.last().0@ == token@
                && final(self).players@.last().1.is_fresh(player_name@),
            has_key(old(self).players@, token@) ==> final(self).players@ == old(self).players@.update(
                index_of_key(old(self).players@, token@),
                (token, final(self).players@[index_of_key(old(self).players@, token@)].1),
            ),
            !has_key(old(self).players@, token@) ==> final(self).players@ == old(self).players@.push(
                (token, final(self).players@[old(self).players@.len() as int].1),
            ),
            has_key(old(self).players@, token@) ==> final(self).players@[index_of_key(
                old(self).players@,
                token@,
            )].1.is_fresh(player_name@),
            !has_key(old(self).players@, token@) ==> final(self).players@[old(
                self,
            ).players@.len() as int].1.is_fresh(player_name@),
            has_key(final(self).players@, token@),
            value_of_key(final(self).players@, token@).is_fresh(player_name@),
            forall|k: Seq<char>|
                k != token@ ==> #[trigger] has_key(final(self).players@, k) == has_key(
                    old(self).players@,
                    k,
                ),
            forall|k: Seq<char>|
                k != token@ && has_key(old(self).players@, k) ==> #[trigger] value_of_key(
                    final(self).players@,
                    k,
                ) == value_of_key(old(self).players@, k),
            scores_covered(*old(self)) ==> scores_covered(*final(self)),
            room_consistent(*old(self)) ==> room_consistent(*final(self)),
            keys_distinct(old(self).players@) ==> keys_distinct(final(self).players@),
            final(self).board == old(self).board,
            final(self).name == old(self).name,
            final(self).solutions == old(self).solutions,
            final(self).found_once == old(self).found_once,
            final(self).found_twice == old(self).found_twice,
            final(self).start_time == old(self).start_time,
            final(self).expiration_time == old(self).expiration_time,
            final(self).status == old(self).status,
            final(self).game_number == old(self).game_number,
    {
        let mut player_token = GameState::generate_token();
        if find_key(&self.players, &player_token).is_some() && (self.players.len() as u64)
            < 0x1000_0000_0000_0000u64 {
            player_token = fresh_token(&self.players);
        }
        let player = Player { name: player_name, valid_guesses: VecDeque::new(), score: 0 };
        proof {
            if has_key(self.players@, player_token@) {
                let j = choose|j: int|
                    0 <= j < self.players@.len() && #[trigger] self.players@[j].0@ == player_token@;
                lemma_first_key_exists(self.players@, player_token@, j);
            }
        }
        let ghost before = self.players@;
        insert_entry(&mut self.players, player_token.clone(), player);
        proof {
            let after = self.players@;
            assert(once_points(Seq::<Guess>::empty()) == 0);
            if has_key(before, player_token@) {
                let j = choose|j: int| 0 <= j < before.len() && #[trigger] before[j].0@ == player_token@;
                lemma_first_key_exists(before, player_token@, j);
                let k = index_of_key(before, player_token@);
                if keys_distinct(before) {
                    crate::entries::lemma_keys_after_update(before, k, after[k]);
                }
                assert forall|i: int| 0 <= i < after.len() && scores_covered(*old(self)) implies score_covers(
                    #[trigger] after[i].1,
                ) by {
                    if i != k {
                        assert(after[i] == before[i]);
                    } else {
                        assert(after[i].1.valid_guesses@ =~= Seq::<Guess>::empty());
                    }
                }
            } else {
                if keys_distinct(before) {
                    crate::entries::lemma_keys_after_push(before, after.last());
                }
                assert forall|i: int| 0 <= i < after.len() && scores_covered(*old(self)) implies score_covers(
                    #[trigger] after[i].1,
                ) by {
                    if i < before.len() {
                        assert(after[i] == before[i]);
                    } else {
                        assert(after[i].1.valid_guesses@ =~= Seq::<Guess>::empty());
                    }
                }
            }
            if room_consistent(*old(self)) {
                // every player now is one from before, or the new one, who has found nothing
                assert forall|i: int| 0 <= i < after.len() implies #[trigger] after[i] == before[i]
                    || after[i].1.valid_guesses@.len() == 0 by {
                    if has_key(before, player_token@) {
                        let k = index_of_key(before, player_token@);
                        if i != k {
                            assert(after[i] == before[i]);
                        }
                    } else if i < before.len() {
                        assert(after[i] == before[i]);
                    }
                }
                assert forall|i: int| 0 <= i < after.len() implies guesses_recorded(
                    (#[trigger] after[i]).1.valid_guesses@,
                    self.found_once@,
                ) by {
                    if after[i] == before[i] {
                        assert(guesses_recorded(before[i].1.valid_guesses@, self.found_once@));
                    }
                }
                assert forall|i: int, j: int, a: int, b: int|
                    0 <= i < after.len() && 0 <= j < after.len() && i != j && 0 <= a
                        < after[i].1.valid_guesses@.len() && 0 <= b < after[j].1.valid_guesses@.len()
                        && (#[trigger] after[i].1.valid_guesses@[a]).found == Found::Once
                        && (#[trigger] after[j].1.valid_guesses@[b]).found == Found::Once
                    implies after[i].1.valid_guesses@[a].word@ != after[j].1.valid_guesses@[b].word@ by {
                    assert(after[i] == before[i] || after[i].1.valid_guesses@.len() == 0);
                    assert(after[j] == before[j] || after[j].1.valid_guesses@.len() == 0);
                    assert(before[i].1.valid_guesses@[a] == after[i].1.valid_guesses@[a]);
                    assert(before[j].1.valid_guesses@[b] == after[j].1.valid_guesses@[b]);
                    assert(once_unique(*old(self)));
                }
            }
        }
        player_token
    }

    /// Starts a round when the session waits in the lobby and the start
    /// button is released (`Inactive`): the round number goes up by one,
    /// the board takes the letters of the draw, the solutions become the
    /// words found on it, the round starts at `now` and every player's
    /// found words are cleared. Otherwise nothing changes.
    pub fn activate(
        &mut self,
        trie: &TrieNode,
        button_state: &ButtonState,
        letter_indices: &Vec<usize>,
        now: u64,
    )
        requires
            is_draw(letter_indices@),
            starts_round(old(self).status, *button_state) ==> old(self).game_number < usize::MAX,
        ensures
            activated(*old(self), *final(self), *trie, *button_state, letter_indices@, now),
            scores_covered(*old(self)) ==> scores_covered(*final(self)),
            room_consistent(*old(self)) ==> room_consistent(*final(self)),
    {
        match self.status {
            GameStatus::InLobby => match button_state {
                ButtonState::Inactive => {
                    self.status = GameStatus::InProgress;
                    self.game_number += 1;
                    self.board._randomise(letter_indices);
                    self.solutions = self.board.solve(trie);
                    self.start_time = now;
                    clear_guesses(&mut self.players);
                    proof {
                        assert forall|i: int| 0 <= i < self.players@.len() implies guesses_recorded(
                            (#[trigger] self.players@[i]).1.valid_guesses@,
                            self.found_once@,
                        ) by {
                            assert(self.players@[i].1.valid_guesses@.len() == 0);
                        }
                        assert forall|i: int, j: int, a: int, b: int|
                            0 <= i < self.players@.len() && 0 <= j < self.players@.len() && i != j
                                && 0 <= a < self.players@[i].1.valid_guesses@.len() && 0 <= b
                                < self.players@[j].1.valid_guesses@.len()
                                && (#[trigger] self.players@[i].1.valid_guesses@[a]).found == Found::Once
                                && (#[trigger] self.players@[j].1.valid_guesses@[b]).found == Found::Once
                            implies self.players@[i].1.valid_guesses@[a].word@
                                != self.players@[j].1.valid_guesses@[b].word@ by {
                            assert(self.players@[i].1.valid_guesses@.len() == 0);
                        }

                        assert forall|i: int| 0 <= i < self.players@.len() implies score_covers(
                            #[trigger] self.players@[i].1,
                        ) by {
                            assert(self.players@[i].1.valid_guesses@ =~= Seq::<Guess>::empty());
                            assert(once_points(Seq::<Guess>::empty()) == 0);
                        }
                    }
                },
                _ => (),
            },
            _ => (),
        }
    }
}

/// Clears every player's found words, keeping tokens, names and scores.
fn clear_guesses(players: &mut Vec<(String, Player)>)
    ensures
        final(players)@.len() == old(players)@.len(),
        forall|j: int| 0 <= j < old(players)@.len() ==> {
            &&& (#[trigger] final(players)@[j]).0 == old(players)@[j].0
            &&& final(players)@[j].1.name == old(players)@[j].1.name
            &&& final(players)@[j].1.score == old(players)@[j].1.score
            &&& final(players)@[j].1.valid_guesses@.len() == 0
        },
{
    let mut i: usize = 0;
    while i < players.len()
        invariant
            i <= players@.len(),
            players@.len() == old(players)@.len(),
            forall|j: int| 0 <= j < old(players)@.len() ==> {
                &&& (#[trigger] players@[j]).0 == old(players)@[j].0
                &&& players@[j].1.name == old(players)@[j].1.name
                &&& players@[j].1.score == old(players)@[j].1.score
                &&& j < i ==> players@[j].1.valid_guesses@.len() == 0
            },
        decreases players@.len() - i,
    {
        players[i].1.valid_guesses = VecDeque::new();
        i += 1;
    }
}

/// `after` is `before` once the lobby button has been read: when it
/// starts a round, the round number goes up by one, the board carries the
/// letters of the draw, the solutions are the words found on it (each once), the round
/// starts at `now` and every player keeps token, name and score but loses
/// their found words; otherwise nothing changes.
pub open spec fn activated(
    before: Game,
    after: Game,
    trie: TrieNode,
    button_state: ButtonState,
    letter_indices: Seq<usize>,
    now: u64,
) -> bool {
    if starts_round(before.status, button_state) {
        &&& after.status == GameStatus::InProgress
        &&& after.game_number == before.game_number + 1
        &&& board_of_draw(after.board, letter_indices)
        &&& forall|w: Seq<char>| #[trigger] has_text(after.solutions@, w) <==> after.board.solution(
            trie,
            w,
        )
        &&& crate::text::distinct_texts(after.solutions@)
        &&& after.start_time == now
        &&& after.players@.len() == before.players@.len()
        &&& forall|i: int| 0 <= i < before.players@.len() ==> {
            &&& (#[trigger] after.players@[i]).0 == before.players@[i].0
            &&& after.players@[i].1.name == before.players@[i].1.name
            &&& after.players@[i].1.score == before.players@[i].1.score
            &&& after.players@[i].1.valid_guesses@.len() == 0
        }
        &&& after.name == before.name
        &&& after.found_once == before.found_once
        &&& after.found_twice == before.found_twice
        &&& after.expiration_time == before.expiration_time
    } else {
        after == before
    }
}

/// The lobby button starts a round: the session waits in the lobby and the
/// button reads `Inactive`.
pub open spec fn starts_round(status: GameStatus, button_state: ButtonState) -> bool {
    status == GameStatus::InLobby && button_state == ButtonState::Inactive
}

impl GameState {
    /// A random token of twelve ASCII letters and digits.
    fn generate_token() -> (t: String)
        ensures
            is_token(t@),
    {
        let mut chars: Vec<char> = Vec::new();
        let mut i: usize = 0;
        while i < 12
            invariant
                i <= 12,
                chars@.len() == i,
                forall|j: int| 0 <= j < i ==> is_token_char(#[trigger] chars@[j]),
            decreases 12 - i,
        {
            let c = sample_alphanumeric();
            chars.push(c);
            i += 1;
        }
        string_from_chars(&chars)
    }

    /// No sessions.
    pub fn new() -> (s: GameState)
        ensures
            s.games@.len() == 0,
            s.wf(),
    {
        GameState { games: Vec::new() }
    }

    /// Opens a session named `name` under `room_id`, on the board of the
    /// draw `letter_indices`, at `now`, with no players, when no session has
    /// that id yet, and tells whether it did; otherwise nothing changes.
    pub fn open_session(
        &mut self,
        room_id: String,
        name: String,
        letter_indices: &Vec<usize>,
        now: u64,
    ) -> (r: bool)
        requires
            is_draw(letter_indices@),
        ensures
            r == !has_key(old(self).games@, room_id@),
            r ==> {
                &&& final(self).games@ == old(self).games@.push(
                    (room_id, final(self).games@.last().1),
                )
                &&& is_new_game(final(self).games@.last().1, name@, letter_indices@, now)
                &&& has_key(final(self).games@, room_id@)
                &&& index_of_key(final(self).games@, room_id@) == old(self).games@.len()
            },
            !r ==> *final(self) == *old(self),
            old(self).wf() ==> final(self).wf(),
    {
        if find_key(&self.games, &room_id).is_some() {
            return false;
        }
        let ghost before = self.games@;
        let game = Game::new(name, letter_indices, now);
        self.games.push((room_id, game));
        proof {
            crate::entries::lemma_first_after_push(before, self.games@.last());
            crate::entries::lemma_index_of_key(self.games@, room_id@, before.len() as int);
            assert(self.games@[before.len() as int].0@ == room_id@);
            if old(self).wf() {
                crate::entries::lemma_keys_after_push(before, self.games@.last());
                assert forall|i: int| 0 <= i < self.games@.len() implies (
                #[trigger] self.games@[i]).1.wf() by {
                    if i < before.len() {
                        assert(self.games@[i] == before[i]);
                    }
                }
            }
        }
        true
    }

    /// Draws a room id; when no session has it, opens a single-player
    /// session under it, named `single_player`, on the board of the draw
    /// `letter_indices` at `now`, with one player `Joe` under the token
    /// `single_player`, and returns the id. When the drawn id is taken, the
    /// first free token of a fixed family is used instead; only with `2^60`
    /// sessions or more can the id be taken still, and then nothing changes
    /// and `None` comes back, so that the caller draws again.
    pub fn new_session_single(&mut self, letter_indices: &Vec<usize>, now: u64) -> (r: Option<String>)
        requires
            is_draw(letter_indices@),
        ensures
            match r {
                Some(room_id) => {
                    &&& is_token(room_id@)
                    &&& !has_key(old(self).games@, room_id@)
                    &&& final(self).games@.len() == old(self).games@.len() + 1
                    &&& final(self).games@.take(old(self).games@.len() as int) == old(self).games@
                    &&& final(self).games@.last().0@ == room_id@
                    &&& is_single_player_game(final(self).games@.last().1, letter_indices@, now)
                },
                None => *final(self) == *old(self) && exists|i: int|
                    0 <= i < old(self).games@.len() && is_token(#[trigger] old(self).games@[i].0@),
            },
            old(self).wf() ==> final(self).wf(),
            old(self).games@.len() < token_family_size() ==> r is Some,
            r matches Some(room_id) ==> has_key(final(self).games@, room_id@) && is_single_player_game(
                value_of_key(final(self).games@, room_id@),
                letter_indices@,
                now,
            ),
    {
        let mut room_id = Self::generate_token();
        if find_key(&self.games, &room_id).is_some() && (self.games.len() as u64)
            < 0x1000_0000_0000_0000u64 {
            room_id = fresh_token(&self.games);
        }
        let ghost before = *self;
        if !self.open_session(room_id.clone(), String::from_str("single_player"), letter_indices, now) {
            proof {
                let i = index_of_key(before.games@, room_id@);
                let j = choose|j: int|
                    0 <= j < before.games@.len() && #[trigger] before.games@[j].0@ == room_id@;
                assert(is_token(before.games@[j].0@));
            }
            return None;
        }
        let ghost opened = self.games@;
        let last = self.games.len() - 1;
        let player = Player {
            name: String::from_str("Joe"),
            valid_guesses: VecDeque::new(),
            score: 0,
        };
        self.games[last].1.players.push((String::from_str("single_player"), player));
        proof {
            assert(self.games@ == opened.update(last as int, (opened[last as int].0, self.games@[last as int].1)));
            assert(self.games@.take(before.games@.len() as int) =~= before.games@);
            assert(self.games@[last as int].1.players@.len() == 1);
            assert(is_first_key(self.games@, room_id@, last as int)) by {
                assert(is_first_key(opened, room_id@, last as int));
                assert forall|j: int| 0 <= j < last implies self.games@[j].0@ != room_id@ by {
                    assert(self.games@[j] == opened[j]);
                }
            }
            crate::entries::lemma_index_of_key(self.games@, room_id@, last as int);
            if before.wf() {
                assert(keys_distinct(self.games@)) by {
                    assert forall|a: int, b: int| 0 <= a < b < self.games@.len() implies #[trigger] self.games@[a].0@
                        != #[trigger] self.games@[b].0@ by {
                        assert(self.games@[a].0 == opened[a].0);
                        assert(self.games@[b].0 == opened[b].0);
                    }
                }
                assert forall|i: int| 0 <= i < self.games@.len() implies (
                #[trigger] self.games@[i]).1.wf() by {
                    if i < last {
                        assert(self.games@[i] == opened[i]);
                    }
                }
            }
        }
        Some(room_id)
    }

    /// Draws a room id and opens a session named `room_name` under it (see
    /// `open_session`), and returns the id. When the drawn id is taken, the
    /// first free token of a fixed family is used instead; only with `2^60`
    /// sessions or more can the id be taken still, and then nothing changes
    /// and `None` comes back, so that the caller draws again.
    pub fn new_session_multi(&mut self, room_name: String, letter_indices: &Vec<usize>, now: u64) -> (r:
        Option<String>)
        requires
            is_draw(letter_indices@),
        ensures
            match r {
                Some(room_id) => {
                    &&& is_token(room_id@)
                    &&& !has_key(old(self).games@, room_id@)
                    &&& final(self).games@ == old(self).games@.push(
                        (final(self).games@.last().0, final(self).games@.last().1),
                    )
                    &&& final(self).games@.last().0@ == room_id@
                    &&& is_new_game(final(self).games@.last().1, room_name@, letter_indices@, now)
                },
                None => *final(self) == *old(self) && exists|i: int|
                    0 <= i < old(self).games@.len() && is_token(#[trigger] old(self).games@[i].0@),
            },
            old(self).wf() ==> final(self).wf(),
            old(self).games@.len() < token_family_size() ==> r is Some,
            r matches Some(room_id) ==> has_key(final(self).games@, room_id@) && is_new_game(
                value_of_key(final(self).games@, room_id@),
                room_name@,
                letter_indices@,
                now,
            ),
    {
        let mut room_id = Self::generate_token();
        if find_key(&self.games, &room_id).is_some() && (self.games.len() as u64)
            < 0x1000_0000_0000_0000u64 {
            room_id = fresh_token(&self.games);
        }
        let ghost before = *self;
        if self.open_session(room_id.clone(), room_name, letter_indices, now) {
            Some(room_id)
        } else {
            proof {
                let j = choose|j: int|
                    0 <= j < before.games@.len() && #[trigger] before.games@[j].0@ == room_id@;
                assert(is_token(before.games@[j].0@));
            }
            None
        }
    }

    /// Drops the session `room_id`, if there is one.
    pub fn forget(&mut self, room_id: String)
        ensures
            has_key(old(self).games@, room_id@) ==> final(self).games@ == old(self).games@.remove(
                index_of_key(old(self).games@, room_id@),
            ),
            !has_key(old(self).games@, room_id@) ==> final(self).games@ == old(self).games@,
            keys_distinct(old(self).games@) ==> keys_distinct(final(self).games@) && !has_key(
                final(self).games@,
                room_id@,
            ),
            old(self).wf() ==> final(self).wf(),
    {
        let ghost before = self.games@;
        remove_entry(&mut self.games, &room_id);
        proof {
            if keys_distinct(before) && has_key(before, room_id@) {
                let j = choose|j: int| 0 <= j < before.len() && #[trigger] before[j].0@ == room_id@;
                lemma_first_key_exists(before, room_id@, j);
                let k = index_of_key(before, room_id@);
                crate::entries::lemma_keys_after_remove(before, k);
                if old(self).wf() {
                    assert forall|i: int| 0 <= i < self.games@.len() implies (
                    #[trigger] self.games@[i]).1.wf() by {
                        if i < k {
                            assert(self.games@[i] == before[i]);
                        } else {
                            assert(self.games@[i] == before[i + 1]);
                        }
                    }
                }
            }
        }
    }
}

/// A session whose players keep their tokens, position by position, keeps
/// its players' tokens distinct.
pub proof fn lemma_same_player_keys(a: Game, b: Game)
    requires
        a.wf(),
        b.players@.len() == a.players@.len(),
        forall|j: int| 0 <= j < a.players@.len() ==> (#[trigger] b.players@[j]).0 == a.players@[j].0,
    ensures
        b.wf(),
{
    assert forall|i: int, j: int| 0 <= i < j < b.players@.len() implies #[trigger] b.players@[i].0@
        != #[trigger] b.players@[j].0@ by {
        assert(b.players@[i].0 == a.players@[i].0);
        assert(b.players@[j].0 == a.players@[j].0);
    }
}

/// Changing one session, under the same id, into a well-formed one keeps
/// the sessions well formed.
pub proof fn lemma_wf_update(before: GameState, after: GameState, ri: int)
    requires
        before.wf(),
        0 <= ri < before.games@.len(),
        after.games@.len() == before.games@.len(),
        forall|j: int| 0 <= j < before.games@.len() && j != ri ==> #[trigger] after.games@[j] == before.games@[j],
        after.games@[ri].0 == before.games@[ri].0,
        after.games@[ri].1.wf(),
    ensures
        after.wf(),
{
    assert forall|i: int, j: int| 0 <= i < j < after.games@.len() implies #[trigger] after.games@[i].0@
        != #[trigger] after.games@[j].0@ by {
        assert(after.games@[i].0 == before.games@[i].0);
        assert(after.games@[j].0 == before.games@[j].0);
    }
    assert forall|i: int| 0 <= i < after.games@.len() implies (#[trigger] after.games@[i]).1.wf() by {
        if i != ri {
            assert(after.games@[i] == before.games@[i]);
        }
    }
}

/// Adding an entry under a key that no entry carries keeps every entry that
/// was there, under its key and with its value, and adds exactly the new one:
/// what a player joining a room (`Game::new_player`) and a session being
/// opened (`GameState::open_session`, `new_session_single`,
/// `new_session_multi`) do, as long as there are fewer than `2^60` of them.
pub proof fn lemma_added_entry_keeps_others<V>(
    before: Seq<(String, V)>,
    after: Seq<(String, V)>,
    key: Seq<char>,
)
    requires
        !has_key(before, key),
        after.len() == before.len() + 1,
        after.take(before.len() as int) == before,
        after.last().0@ == key,
    ensures
        forall|k: Seq<char>| #[trigger] has_key(after, k) <==> (has_key(before, k) || k == key),
        forall|k: Seq<char>|
            has_key(before, k) ==> #[trigger] value_of_key(after, k) == value_of_key(before, k),
        value_of_key(after, key) == after.last().1,
{
    let n = before.len() as int;
    assert forall|j: int| 0 <= j < n implies after[j] == before[j] by {
        assert(after[j] == after.take(n)[j]);
    }
    assert(is_first_key(after, key, n));
    crate::entries::lemma_index_of_key(after, key, n);
    assert forall|k: Seq<char>| #[trigger] has_key(after, k) <==> (has_key(before, k) || k == key) by {
        if has_key(after, k) {
            let j = choose|j: int| 0 <= j < after.len() && #[trigger] after[j].0@ == k;
            if j < n {
                assert(before[j].0@ == k);
            }
        }
        if has_key(before, k) {
            let j = choose|j: int| 0 <= j < before.len() && #[trigger] before[j].0@ == k;
            assert(after[j].0@ == k);
        }
        if k == key {
            assert(after[n].0@ == k);
        }
    }
    assert forall|k: Seq<char>| has_key(before, k) implies #[trigger] value_of_key(after, k)
        == value_of_key(before, k) by {
        let j = choose|j: int| 0 <= j < before.len() && #[trigger] before[j].0@ == k;
        lemma_first_key_exists(before, k, j);
        let f = index_of_key(before, k);
        assert(is_first_key(after, k, f)) by {
            assert forall|i: int| 0 <= i < f implies after[i].0@ != k by {
                assert(after[i] == before[i]);
            }
            assert(after[f] == before[f]);
        }
        crate::entries::lemma_index_of_key(after, k, f);
    }
}

/// Forgetting a session that was just opened gives back the sessions as
/// they were before it was opened.
pub proof fn lemma_forget_undoes_open(before: GameState, after: GameState, room_id: Seq<char>)
    requires
        !has_key(before.games@, room_id),
        after.games@.len() == before.games@.len() + 1,
        after.games@.take(before.games@.len() as int) == before.games@,
        after.games@.last().0@ == room_id,
    ensures
        has_key(after.games@, room_id),
        after.games@.remove(index_of_key(after.games@, room_id)) == before.games@,
{
    let n = before.games@.len() as int;
    assert(after.games@[n].0@ == room_id);
    assert(is_first_key(after.games@, room_id, n)) by {
        assert forall|j: int| 0 <= j < n implies after.games@[j].0@ != room_id by {
            assert(after.games@[j] == after.games@.take(n)[j]);
        }
    }
    crate::entries::lemma_index_of_key(after.games@, room_id, n);
    assert(after.games@.remove(n) =~= before.games@);
}

/// A session just opened: named `name`, on the board of the draw
/// `letter_indices`, in the lobby, with no players, solutions or found
/// words, started and expiring at `now`.
pub open spec fn is_new_game(g: Game, name: Seq<char>, letter_indices: Seq<usize>, now: u64) -> bool {
    &&& board_of_draw(g.board, letter_indices)
    &&& g.name@ == name
    &&& g.solutions@.len() == 0
    &&& g.found_once@.len() == 0
    &&& g.found_twice@.len() == 0
    &&& g.players@.len() == 0
    &&& g.start_time == now
    &&& g.expiration_time == now
    &&& g.status == GameStatus::InLobby
    &&& g.game_number == 0
}

/// A single-player session just opened: as a new session named
/// `single_player`, but with the one player `Joe` under the token
/// `single_player`.
pub open spec fn is_single_player_game(g: Game, letter_indices: Seq<usize>, now: u64) -> bool {
    &&& board_of_draw(g.board, letter_indices)
    &&& g.name@ == "single_player"@
    &&& g.solutions@.len() == 0
    &&& g.found_once@.len() == 0
    &&& g.found_twice@.len() == 0
    &&& g.players@.len() == 1
    &&& g.players@[0].0@ == "single_player"@
    &&& g.players@[0].1.is_fresh("Joe"@)
    &&& g.start_time == now
    &&& g.expiration_time == now
    &&& g.status == GameStatus::InLobby
    &&& g.game_number == 0
}

/// The points of one guess, while only this player has found it: those of
/// its length in `SCORES` (none if no length matches).
pub open spec fn once_value(g: Guess) -> int {
    if g.found == Found::Once {
        match word_score(crate::text::byte_len(g.word@)) {
            Some(p) => p as int,
            None => 0,
        }
    } else {
        0
    }
}

/// The points of the words only this player has found.
pub open spec fn once_points(guesses: Seq<Guess>) -> int
    decreases guesses.len(),
{
    if guesses.len() == 0 {
        0
    } else {
        once_points(guesses.drop_last()) + once_value(guesses.last())
    }
}

/// Every word only this player found has points in `SCORES`.
pub open spec fn once_scored(guesses: Seq<Guess>) -> bool {
    forall|i: int|
        0 <= i < guesses.len() && (#[trigger] guesses[i]).found == Found::Once ==> word_score(
            crate::text::byte_len(guesses[i].word@),
        ) is Some
}

/// The player's score covers the points of the words only they found, and
/// each of those words has points.
pub open spec fn score_covers(p: Player) -> bool {
    &&& once_scored(p.valid_guesses@)
    &&& p.score >= once_points(p.valid_guesses@)
}

/// Every player of the session has a score that covers their words.
pub open spec fn scores_covered(room: Game) -> bool {
    forall|i: int| 0 <= i < room.players@.len() ==> score_covers(#[trigger] room.players@[i].1)
}

/// Every guess in `guesses` has a word of its own, and each of those words
/// is among the words found in the session (`found_once`).
pub open spec fn guesses_recorded(guesses: Seq<Guess>, found_once: Seq<String>) -> bool {
    &&& forall|a: int, b: int|
        0 <= a < b < guesses.len() ==> (#[trigger] guesses[a]).word@ != (#[trigger] guesses[b]).word@
    &&& forall|a: int| 0 <= a < guesses.len() ==> has_text(found_once, (#[trigger] guesses[a]).word@)
}

/// No word counts as found once for two different players.
pub open spec fn once_unique(room: Game) -> bool {
    forall|i: int, j: int, a: int, b: int|
        0 <= i < room.players@.len() && 0 <= j < room.players@.len() && i != j && 0 <= a
            < room.players@[i].1.valid_guesses@.len() && 0 <= b < room.players@[j].1.valid_guesses@.len()
            && (#[trigger] room.players@[i].1.valid_guesses@[a]).found == Found::Once
            && (#[trigger] room.players@[j].1.valid_guesses@[b]).found == Found::Once
            ==> room.players@[i].1.valid_guesses@[a].word@ != room.players@[j].1.valid_guesses@[b].word@
}

/// The words a session records agree: the words found once and found twice
/// are each listed once, every word found twice was found once, every
/// player's words are their own and were found, and no word counts as
/// found once for two players.
pub open spec fn room_consistent(room: Game) -> bool {
    &&& crate::text::distinct_texts(room.found_once@)
    &&& crate::text::distinct_texts(room.found_twice@)
    &&& forall|w: Seq<char>| #[trigger] has_text(room.found_twice@, w) ==> has_text(room.found_once@, w)
    &&& forall|i: int|
        0 <= i < room.players@.len() ==> guesses_recorded(
            (#[trigger] room.players@[i]).1.valid_guesses@,
            room.found_once@,
        )
    &&& once_unique(room)
}

/// A guess put in front adds its own points.
pub proof fn lemma_once_points_front(g: Guess, gs: Seq<Guess>)
    ensures
        once_points(seq![g] + gs) == once_value(g) + once_points(gs),
    decreases gs.len(),
{
    if gs.len() == 0 {
        assert((seq![g] + gs).drop_last() =~= Seq::<Guess>::empty());
        assert((seq![g] + gs).last() == g);
        assert(once_points(Seq::<Guess>::empty()) == 0);
        assert(once_points(gs) == 0);
        assert(once_points(seq![g] + gs) == once_points((seq![g] + gs).drop_last()) + once_value(g));
    } else {
        assert((seq![g] + gs).drop_last() =~= seq![g] + gs.drop_last());
        assert((seq![g] + gs).last() == gs.last());
        lemma_once_points_front(g, gs.drop_last());
    }
}

/// Points are never negative.
pub proof fn lemma_once_points_nonneg(gs: Seq<Guess>)
    ensures
        once_points(gs) >= 0,
    decreases gs.len(),
{
    if gs.len() > 0 {
        lemma_once_points_nonneg(gs.drop_last());
    }
}

} // verus!
