//! The rules behind each request of the web front end: guesses, polls,
//! joining and opening sessions, and the pages of a session. The front end
//! reads the request, calls these and renders or sends what comes back.
use std::collections::VecDeque;

use vstd::prelude::*;

use crate::board::{copy_chars, BoggleBoard};
use crate::entries::{find_key, has_key, index_of_key, is_first_key, lemma_first_key_exists, value_of_key};
use crate::game_state::{
    room_consistent, guesses_recorded, once_unique,
    lemma_same_player_keys, lemma_wf_update,
    lemma_once_points_nonneg, once_points, once_scored, once_value, scores_covered, score_covers,
    activated, is_single_player_game, is_token, starts_round, score_for_length, word_score, Found, Game,
    GameState, Guess,
};
use crate::layout::{format_solutions, lays_out};
use crate::trie::TrieNode;
use crate::responses::{
    lists_guesses, shows_player, ButtonState, GamePollResponse, GuessResponse, LobbyPollResponse,
};
use crate::text::{byte_len, contains_text, distinct_texts, has_text, lemma_has_text_push};

verus! {

/// How long a session lives after its last request, in seconds.
pub const LIFETIME_SECONDS: u64 = 180;

/// How long a session lives after its last request, in nanoseconds.
pub const LIFETIME_NANOS: u64 = 180_000_000_000;

/// Why a request is refused. The first two are answered as bad requests;
/// the others are the cases in which the server gives up on the request.
#[derive(Debug, PartialEq, Eq, Structural)]
pub enum RequestError {
    /// No session has the room id.
    RoomNotFound,
    /// The session has no player with the token.
    PlayerNotFound,
    /// `SCORES` lists no points for the length of a word to be scored.
    MissingScore,
    /// A score or a time would leave the range of its integer type.
    Overflow,
    /// The drawn room id is taken; draw again.
    RoomIdTaken,
    /// The session's board is not four rows of four letters.
    MalformedBoard,
}

/// The lower-case form of a text, as `str::to_lowercase` computes it.
pub uninterp spec fn lowercase_text(s: Seq<char>) -> Seq<char>;

/// The lower-case form of `s`, by `str::to_lowercase` (Unicode lower-case
/// mapping). The result is named, not spelled out.
#[verifier::external_body]
fn to_lowercase(s: &str) -> (r: String)
    ensures
        r@ == lowercase_text(s@),
{
    s.to_lowercase()
}

/// The player has already found the word `g`.
pub open spec fn guessed(guesses: Seq<Guess>, g: Seq<char>) -> bool {
    exists|i: int| 0 <= i < guesses.len() && #[trigger] guesses[i].word@ == g
}

/// `guesses` holds a guess with the word `g`.
fn has_guessed(guesses: &VecDeque<Guess>, g: &String) -> (r: bool)
    ensures
        r == guessed(guesses@, g@),
{
    let mut i: usize = 0;
    while i < guesses.len()
        invariant
            i <= guesses@.len(),
            forall|j: int| 0 <= j < i ==> guesses@[j].word@ != g@,
        decreases guesses@.len() - i,
    {
        if guesses[i].word == *g {
            assert(guesses@[i as int].word@ == g@);
            return true;
        }
        i += 1;
    }
    false
}

/// The session under `room_id`.
pub open spec fn room_of(state: GameState, room_id: Seq<char>) -> Game {
    value_of_key(state.games@, room_id)
}

/// A guess counts: the word is a solution the player has not found yet.
pub open spec fn counts(room: Game, player_id: Seq<char>, g: Seq<char>) -> bool {
    &&& has_text(room.solutions@, g)
    &&& !guessed(value_of_key(room.players@, player_id).valid_guesses@, g)
}

/// Nobody has found the word `g` in this session yet.
pub open spec fn first_to_find(room: Game, g: Seq<char>) -> bool {
    !has_text(room.found_twice@, g) && !has_text(room.found_once@, g)
}

/// The points a counting guess earns: those of its length for the first
/// finder, nothing for the others.
pub open spec fn points_earned(room: Game, player_id: Seq<char>, g: Seq<char>) -> int {
    if counts(room, player_id, g) && first_to_find(room, g) {
        match word_score(byte_len(g)) {
            Some(p) => p as int,
            None => 0,
        }
    } else {
        0
    }
}

/// The refusal a lower-case guess `g` meets, if any.
pub open spec fn guess_error(
    state: GameState,
    room_id: Seq<char>,
    player_id: Seq<char>,
    g: Seq<char>,
    now: u64,
) -> Option<RequestError> {
    let room = room_of(state, room_id);
    if !has_key(state.games@, room_id) {
        Some(RequestError::RoomNotFound)
    } else if !has_key(room.players@, player_id) {
        Some(RequestError::PlayerNotFound)
    } else if counts(room, player_id, g) && first_to_find(room, g) && word_score(byte_len(g)) is None {
        Some(RequestError::MissingScore)
    } else if value_of_key(room.players@, player_id).score + points_earned(room, player_id, g)
        > usize::MAX || now as int + LIFETIME_NANOS as int > u64::MAX {
        Some(RequestError::Overflow)
    } else {
        None
    }
}

/// `after` is `before` once the lower-case guess `g` of player `player_id`
/// in session `room_id` has been scored at time `now`: a solution the player
/// has not found yet is put first among the player's words (found once, with
/// the points of its length, when nobody found it before; found twice
/// otherwise, and then also marked found twice in the session once); the
/// session expires `LIFETIME_NANOS` after `now`; nothing else changes.
pub open spec fn guess_applied(
    before: GameState,
    after: GameState,
    room_id: Seq<char>,
    player_id: Seq<char>,
    g: Seq<char>,
    now: u64,
) -> bool {
    let ri = index_of_key(before.games@, room_id);
    let room = room_of(before, room_id);
    let pi = index_of_key(room.players@, player_id);
    let player = room.players@[pi].1;
    let new_room = after.games@[ri].1;
    let new_player = new_room.players@[pi].1;
    let counted = counts(room, player_id, g);
    let first = first_to_find(room, g);
    &&& after.games@.len() == before.games@.len()
    &&& forall|j: int|
        0 <= j < before.games@.len() && j != ri ==> #[trigger] after.games@[j]
            == before.games@[j]
    &&& after.games@[ri].0 == before.games@[ri].0
    &&& new_room.board == room.board
    &&& new_room.name == room.name
    &&& new_room.solutions == room.solutions
    &&& new_room.start_time == room.start_time
    &&& new_room.status == room.status
    &&& new_room.game_number == room.game_number
    &&& new_room.expiration_time == now + LIFETIME_NANOS
    &&& new_room.players@.len() == room.players@.len()
    &&& forall|j: int|
        0 <= j < room.players@.len() && j != pi ==> #[trigger] new_room.players@[j]
            == room.players@[j]
    &&& new_room.players@[pi].0 == room.players@[pi].0
    &&& new_player.name == player.name
    &&& new_player.score == player.score + points_earned(room, player_id, g)
    &&& if counted {
        &&& new_player.valid_guesses@.len() == player.valid_guesses@.len() + 1
        &&& new_player.valid_guesses@[0].word@ == g
        &&& new_player.valid_guesses@[0].found == if first {
            Found::Once
        } else {
            Found::Twice
        }
        &&& new_player.valid_guesses@.drop_first() =~= player.valid_guesses@
    } else {
        new_player.valid_guesses == player.valid_guesses
    }
    &&& if counted && first {
        &&& new_room.found_once@.len() == room.found_once@.len() + 1
        &&& new_room.found_once@.drop_last() =~= room.found_once@
        &&& new_room.found_once@.last()@ == g
    } else {
        new_room.found_once == room.found_once
    }
    &&& if counted && !first && !has_text(room.found_twice@, g) {
        &&& new_room.found_twice@.len() == room.found_twice@.len() + 1
        &&& new_room.found_twice@.drop_last() =~= room.found_twice@
        &&& new_room.found_twice@.last()@ == g
    } else {
        new_room.found_twice == room.found_twice
    }
}

/// Scores the lower-case guess `guess` of player `player_id` in session
/// `room_id` at time `now`. A solution the player has not found yet is put
/// first among the player's words: as found once, with the points of its
/// length, when nobody found it before, and as found twice otherwise; the
/// second finder also marks it as found twice in the session. The session
/// then expires `LIFETIME_NANOS` after `now`. The answer lists the player's
/// words and score.
pub fn eval_lowercase_guess(
    state: &mut GameState,
    room_id: &String,
    player_id: &String,
    guess: &String,
    now: u64,
) -> (r: Result<GuessResponse, RequestError>)
    ensures
        match guess_error(*old(state), room_id@, player_id@, guess@, now) {
            Some(e) => r == Err::<GuessResponse, RequestError>(e) && *final(state) == *old(state),
            None => guess_applied(*old(state), *final(state), room_id@, player_id@, guess@, now) && {
                let ri = index_of_key(old(state).games@, room_id@);
                let pi = index_of_key(room_of(*old(state), room_id@).players@, player_id@);
                let new_player = final(state).games@[ri].1.players@[pi].1;
                &&& r matches Ok(resp) && lists_guesses(resp.valid_guesses@, new_player.valid_guesses@)
                    && resp.score == new_player.score
                &&& scores_covered(old(state).games@[ri].1) ==> scores_covered(final(state).games@[ri].1)
            },
        },
        old(state).wf() ==> final(state).wf(),
{
    let ri = match find_key(&state.games, room_id) {
        Some(i) => i,
        None => {
            return Err(RequestError::RoomNotFound);
        },
    };
    let pi = match find_key(&state.games[ri].1.players, player_id) {
        Some(i) => i,
        None => {
            return Err(RequestError::PlayerNotFound);
        },
    };
    let counted: bool;
    let in_twice: bool;
    let in_once: bool;
    let mut points: usize = 0;
    {
        let room = &state.games[ri].1;
        let player = &room.players[pi].1;
        counted = contains_text(&room.solutions, guess) && !has_guessed(
            &player.valid_guesses,
            guess,
        );
        in_twice = contains_text(&room.found_twice, guess);
        in_once = contains_text(&room.found_once, guess);
        if counted && !in_twice && !in_once {
            match score_for_length(guess.as_str().len()) {
                Some(p) => {
                    if player.score > usize::MAX - p {
                        return Err(RequestError::Overflow);
                    }
                    points = p;
                },
                None => {
                    return Err(RequestError::MissingScore);
                },
            }
        }
    }
    if now > u64::MAX - LIFETIME_NANOS {
        return Err(RequestError::Overflow);
    }
    let ghost old_room = state.games@[ri as int].1;
    let room = &mut state.games[ri].1;
    if counted {
        if in_twice {
            room.players[pi].1.valid_guesses.push_front(
                Guess { word: guess.clone(), found: Found::Twice },
            );
        } else if in_once {
            room.players[pi].1.valid_guesses.push_front(
                Guess { word: guess.clone(), found: Found::Twice },
            );
            room.found_twice.push(guess.clone());
        } else {
            room.players[pi].1.valid_guesses.push_front(
                Guess { word: guess.clone(), found: Found::Once },
            );
            room.found_once.push(guess.clone());
            room.players[pi].1.score = room.players[pi].1.score + points;
        }
    }
    let response = GuessResponse::from_player(&room.players[pi].1);
    room.expiration_time = now + LIFETIME_NANOS;
    proof {
        let new_room = state.games@[ri as int].1;
        if scores_covered(old_room) {
            let op = old_room.players@[pi as int].1;
            let np = new_room.players@[pi as int].1;
            assert(score_covers(op));
            if counted {
                let g = np.valid_guesses@[0];
                assert(np.valid_guesses@ =~= seq![g] + op.valid_guesses@);
                crate::game_state::lemma_once_points_front(g, op.valid_guesses@);
                if !in_twice && !in_once {
                    assert(once_value(g) == points);
                } else {
                    assert(once_value(g) == 0);
                }
                assert forall|i: int|
                    0 <= i < np.valid_guesses@.len() && (#[trigger] np.valid_guesses@[i]).found
                        == Found::Once implies word_score(byte_len(np.valid_guesses@[i].word@)) is Some by {
                    if i > 0 {
                        assert(np.valid_guesses@[i] == op.valid_guesses@[i - 1]);
                    }
                }
            }
            assert(score_covers(np));
            assert forall|j: int| 0 <= j < new_room.players@.len() implies score_covers(
                #[trigger] new_room.players@[j].1,
            ) by {
                if j != pi {
                    assert(new_room.players@[j] == old_room.players@[j]);
                    assert(score_covers(old_room.players@[j].1));
                }
            }
        }
    }
    proof {
        if old(state).wf() {
            assert(old(state).games@[ri as int].1.wf());
            lemma_same_player_keys(old(state).games@[ri as int].1, state.games@[ri as int].1);
            lemma_wf_update(*old(state), *state, ri as int);
        }
    }
    Ok(response)
}


/// A poll finds that another player also found this word: it was found
/// once, and the session marks it as found twice.
pub open spec fn is_downgraded(g: Guess, twice: Seq<String>) -> bool {
    g.found == Found::Once && has_text(twice, g.word@)
}

/// The guess as a poll leaves it.
pub open spec fn downgrade(g: Guess, twice: Seq<String>) -> Guess {
    Guess {
        word: g.word,
        found: if is_downgraded(g, twice) {
            Found::Twice
        } else {
            g.found
        },
    }
}

/// The score after a poll takes back, guess by guess, the points of every
/// word found once that the session marks as found twice; or why it gives
/// up: no points listed for a word's length, or more points to take back
/// than the score holds.
pub open spec fn score_after_poll(guesses: Seq<Guess>, twice: Seq<String>, score: int) -> Result<
    int,
    RequestError,
>
    decreases guesses.len(),
{
    if guesses.len() == 0 {
        Ok(score)
    } else {
        match score_after_poll(guesses.drop_last(), twice, score) {
            Err(e) => Err(e),
            Ok(s) => {
                let g = guesses.last();
                if is_downgraded(g, twice) {
                    match word_score(byte_len(g.word@)) {
                        None => Err(RequestError::MissingScore),
                        Some(p) => if s < p {
                            Err(RequestError::Overflow)
                        } else {
                            Ok(s - p)
                        },
                    }
                } else {
                    Ok(s)
                }
            },
        }
    }
}

/// The guesses after a poll, and the score after it.
fn downgrade_guesses(guesses: &VecDeque<Guess>, twice: &Vec<String>, score: usize) -> (r: Result<
    (VecDeque<Guess>, usize),
    RequestError,
>)
    ensures
        match score_after_poll(guesses@, twice@, score as int) {
            Err(e) => r == Err::<(VecDeque<Guess>, usize), RequestError>(e),
            Ok(s) => r matches Ok((new_guesses, new_score)) && new_score == s
                && new_guesses@ == guesses@.map_values(|g: Guess| downgrade(g, twice@)),
        },
{
    let mut out: VecDeque<Guess> = VecDeque::new();
    let mut current: usize = score;
    let mut i: usize = 0;
    while i < guesses.len()
        invariant
            i <= guesses@.len(),
            score_after_poll(guesses@.take(i as int), twice@, score as int) == Ok::<
                int,
                RequestError,
            >(current as int),
            out@ == guesses@.take(i as int).map_values(|g: Guess| downgrade(g, twice@)),
        decreases guesses@.len() - i,
    {
        let guess = &guesses[i];
        proof {
            let t = guesses@.take(i + 1);
            assert(t.drop_last() =~= guesses@.take(i as int));
            assert(t.last() == *guess);
        }
        let mut found = match guess.found {
            Found::Once => Found::Once,
            Found::Twice => Found::Twice,
        };
        match guess.found {
            Found::Once => {
                if contains_text(twice, &guess.word) {
                    found = Found::Twice;
                    match score_for_length(guess.word.as_str().len()) {
                        Some(p) => {
                            if current < p {
                                proof {
                                    lemma_poll_stops(guesses@, twice@, score as int, i as int);
                                }
                                return Err(RequestError::Overflow);
                            }
                            current = current - p;
                        },
                        None => {
                            proof {
                                lemma_poll_stops(guesses@, twice@, score as int, i as int);
                            }
                            return Err(RequestError::MissingScore);
                        },
                    }
                }
            },
            Found::Twice => {},
        }
        let ghost before = out@;
        out.push_back(Guess { word: guess.word.clone(), found });
        proof {
            assert(found == downgrade(*guess, twice@).found);
            assert(out@ =~= guesses@.take(i + 1).map_values(|g: Guess| downgrade(g, twice@)));
        }
        i += 1;
    }
    proof {
        assert(guesses@.take(guesses@.len() as int) =~= guesses@);
    }
    Ok((out, current))
}

/// Once the poll gives up on a guess, it gives up on the whole list, for
/// the same reason.
proof fn lemma_poll_stops(guesses: Seq<Guess>, twice: Seq<String>, score: int, i: int)
    requires
        0 <= i < guesses.len(),
        score_after_poll(guesses.take(i + 1), twice, score) is Err,
    ensures
        score_after_poll(guesses, twice, score) == score_after_poll(guesses.take(i + 1), twice, score),
    decreases guesses.len() - i,
{
    if i + 1 < guesses.len() {
        assert(guesses.take(i + 2).drop_last() =~= guesses.take(i + 1));
        lemma_poll_stops(guesses, twice, score, i + 1);
    } else {
        assert(guesses.take(i + 1) =~= guesses);
    }
}

/// The points a poll takes back: those of the words found once that the
/// session marks as found twice.
pub open spec fn taken_back(guesses: Seq<Guess>, twice: Seq<String>) -> int
    decreases guesses.len(),
{
    if guesses.len() == 0 {
        0
    } else {
        taken_back(guesses.drop_last(), twice) + if is_downgraded(guesses.last(), twice) {
            once_value(guesses.last())
        } else {
            0
        }
    }
}

/// A poll that succeeds takes back, guess by guess, the points of every
/// downgraded guess.
proof fn lemma_score_after_poll_ok(guesses: Seq<Guess>, twice: Seq<String>, score: int, t: int)
    requires
        score_after_poll(guesses, twice, score) == Ok::<int, RequestError>(t),
    ensures
        t == score - taken_back(guesses, twice),
    decreases guesses.len(),
{
    if guesses.len() > 0 {
        let pre = guesses.drop_last();
        match score_after_poll(pre, twice, score) {
            Ok(s) => {
                lemma_score_after_poll_ok(pre, twice, score, s);
            },
            Err(_) => {},
        }
    }
}

/// The points of the words found once, after the downgrade, are those from
/// before less what the poll takes back.
proof fn lemma_once_points_after_downgrade(guesses: Seq<Guess>, twice: Seq<String>)
    ensures
        once_points(guesses.map_values(|g: Guess| downgrade(g, twice))) == once_points(guesses)
            - taken_back(guesses, twice),
    decreases guesses.len(),
{
    let m = guesses.map_values(|g: Guess| downgrade(g, twice));
    if guesses.len() == 0 {
        assert(m =~= Seq::<Guess>::empty());
    } else {
        let pre = guesses.drop_last();
        assert(m.drop_last() =~= pre.map_values(|g: Guess| downgrade(g, twice)));
        assert(m.last() == downgrade(guesses.last(), twice));
        lemma_once_points_after_downgrade(pre, twice);
    }
}

/// What a poll does to a player's words and score: every guess keeps its
/// word; a guess found once whose word appears anywhere among the session's
/// words found twice becomes found twice, and every other guess stays as it
/// was; and the score drops by exactly the points the player's words found
/// once lose.
pub proof fn lemma_poll_marks_shared_words(
    guesses: Seq<Guess>,
    twice: Seq<String>,
    score: int,
    new_guesses: Seq<Guess>,
    new_score: int,
)
    requires
        new_guesses == guesses.map_values(|g: Guess| downgrade(g, twice)),
        score_after_poll(guesses, twice, score) == Ok::<int, RequestError>(new_score),
    ensures
        new_guesses.len() == guesses.len(),
        forall|i: int|
            0 <= i < guesses.len() ==> (#[trigger] new_guesses[i]).word == guesses[i].word
                && new_guesses[i].found == if guesses[i].found == Found::Once && has_text(
                twice,
                guesses[i].word@,
            ) {
                Found::Twice
            } else {
                guesses[i].found
            },
        new_score == score - (once_points(guesses) - once_points(new_guesses)),
{
    assert forall|i: int| 0 <= i < guesses.len() implies (#[trigger] new_guesses[i]).word
        == guesses[i].word && new_guesses[i].found == if guesses[i].found == Found::Once
        && has_text(twice, guesses[i].word@) {
        Found::Twice
    } else {
        guesses[i].found
    } by {
        assert(new_guesses[i] == downgrade(guesses[i], twice));
    }
    lemma_score_after_poll_ok(guesses, twice, score, new_score);
    lemma_once_points_after_downgrade(guesses, twice);
}

/// A poll never gives up on a player whose score covers their words: it
/// takes back the points of the words others found too, and the score still
/// covers what remains.
pub proof fn lemma_poll_covered(guesses: Seq<Guess>, twice: Seq<String>, score: int)
    requires
        once_scored(guesses),
        score >= once_points(guesses),
    ensures
        score_after_poll(guesses, twice, score) == Ok::<int, RequestError>(
            score - taken_back(guesses, twice),
        ),
        0 <= taken_back(guesses, twice) <= once_points(guesses),
        once_points(guesses.map_values(|g: Guess| downgrade(g, twice))) == once_points(guesses)
            - taken_back(guesses, twice),
        once_scored(guesses.map_values(|g: Guess| downgrade(g, twice))),
    decreases guesses.len(),
{
    let f = |g: Guess| downgrade(g, twice);
    let m = guesses.map_values(f);
    if guesses.len() == 0 {
        assert(m =~= Seq::<Guess>::empty());
    } else {
        let pre = guesses.drop_last();
        let g = guesses.last();
        assert forall|i: int|
            0 <= i < pre.len() && (#[trigger] pre[i]).found == Found::Once implies word_score(
            byte_len(pre[i].word@),
        ) is Some by {
            assert(pre[i] == guesses[i]);
        }
        lemma_once_points_nonneg(pre);
        assert(once_points(guesses) == once_points(pre) + once_value(g));
        assert(once_value(g) >= 0);
        lemma_poll_covered(pre, twice, score);
        assert(m.drop_last() =~= pre.map_values(f));
        assert(m.last() == downgrade(g, twice));
        if g.found == Found::Once {
            assert(guesses[guesses.len() - 1] == g);
            assert(word_score(byte_len(g.word@)) is Some);
        }
        assert forall|i: int|
            0 <= i < m.len() && (#[trigger] m[i]).found == Found::Once implies word_score(
            byte_len(m[i].word@),
        ) is Some by {
            assert(m[i] == downgrade(guesses[i], twice));
            assert(guesses[i].found == Found::Once);
        }
    }
}

/// A poll that turns some of one player's words from found once to found
/// twice keeps the words the session records in agreement.
pub proof fn lemma_poll_keeps_room_consistent(room: Game, new_room: Game, pi: int)
    requires
        room_consistent(room),
        0 <= pi < room.players@.len(),
        new_room.found_once == room.found_once,
        new_room.found_twice == room.found_twice,
        new_room.players@.len() == room.players@.len(),
        forall|j: int| 0 <= j < room.players@.len() && j != pi ==> #[trigger] new_room.players@[j]
            == room.players@[j],
        new_room.players@[pi].1.valid_guesses@ == room.players@[pi].1.valid_guesses@.map_values(
            |g: Guess| downgrade(g, room.found_twice@),
        ),
    ensures
        room_consistent(new_room),
{
    let gs = room.players@[pi].1.valid_guesses@;
    let ngs = new_room.players@[pi].1.valid_guesses@;
    assert forall|a: int| 0 <= a < ngs.len() implies (#[trigger] ngs[a]).word == gs[a].word && (
    ngs[a].found == Found::Once ==> gs[a].found == Found::Once) by {
        assert(ngs[a] == downgrade(gs[a], room.found_twice@));
    }
    assert forall|i: int| 0 <= i < new_room.players@.len() implies guesses_recorded(
        (#[trigger] new_room.players@[i]).1.valid_guesses@,
        new_room.found_once@,
    ) by {
        if i != pi {
            assert(new_room.players@[i] == room.players@[i]);
        } else {
            assert(guesses_recorded(room.players@[i].1.valid_guesses@, room.found_once@));
            assert forall|a: int, b: int| 0 <= a < b < ngs.len() implies (#[trigger] ngs[a]).word@
                != (#[trigger] ngs[b]).word@ by {
                assert(gs[a].word@ != gs[b].word@);
            }
            assert forall|a: int| 0 <= a < ngs.len() implies has_text(
                new_room.found_once@,
                (#[trigger] ngs[a]).word@,
            ) by {
                assert(has_text(room.found_once@, gs[a].word@));
            }
        }
    }
    assert forall|i: int, j: int, a: int, b: int|
        0 <= i < new_room.players@.len() && 0 <= j < new_room.players@.len() && i != j && 0 <= a
            < new_room.players@[i].1.valid_guesses@.len() && 0 <= b
            < new_room.players@[j].1.valid_guesses@.len()
            && (#[trigger] new_room.players@[i].1.valid_guesses@[a]).found == Found::Once
            && (#[trigger] new_room.players@[j].1.valid_guesses@[b]).found == Found::Once
        implies new_room.players@[i].1.valid_guesses@[a].word@
            != new_room.players@[j].1.valid_guesses@[b].word@ by {
        if i != pi {
            assert(new_room.players@[i] == room.players@[i]);
        }
        if j != pi {
            assert(new_room.players@[j] == room.players@[j]);
        }
        assert(room.players@[i].1.valid_guesses@[a].found == Found::Once);
        assert(room.players@[j].1.valid_guesses@[b].found == Found::Once);
        assert(once_unique(room));
    }
}

/// The round has run for more than two minutes at time `now`.
pub open spec fn round_over(start_time: u64, now: u64) -> bool {
    (if now >= start_time { now - start_time } else { 0 }) / 1_000_000_000 > 120
}

/// The refusal a game poll meets, if any.
pub open spec fn poll_error(state: GameState, room_id: Seq<char>, player_id: Seq<char>) -> Option<
    RequestError,
> {
    let room = room_of(state, room_id);
    if !has_key(state.games@, room_id) {
        Some(RequestError::RoomNotFound)
    } else if !has_key(room.players@, player_id) {
        Some(RequestError::PlayerNotFound)
    } else {
        let player = value_of_key(room.players@, player_id);
        match score_after_poll(player.valid_guesses@, room.found_twice@, player.score as int) {
            Err(e) => Some(e),
            Ok(_) => None,
        }
    }
}

/// Polls the game for player `player_id` of session `room_id` at time
/// `now`. Every word the player found once that the session marks as found
/// twice becomes found twice and its points are taken back; a round that
/// has run for more than two minutes goes back to the lobby. The answer
/// holds the time since the round started, the player's words, score and
/// whether a round is on.
pub fn poll_game(state: &mut GameState, room_id: &String, player_id: &String, now: u64) -> (r:
    Result<GamePollResponse, RequestError>)
    ensures
        match poll_error(*old(state), room_id@, player_id@) {
            Some(e) => r == Err::<GamePollResponse, RequestError>(e) && *final(state) == *old(state),
            None => {
                let ri = index_of_key(old(state).games@, room_id@);
                let room = room_of(*old(state), room_id@);
                let pi = index_of_key(room.players@, player_id@);
                let player = room.players@[pi].1;
                let new_room = final(state).games@[ri].1;
                let new_player = new_room.players@[pi].1;
                &&& final(state).games@.len() == old(state).games@.len()
                &&& forall|j: int|
                    0 <= j < old(state).games@.len() && j != ri ==> #[trigger] final(state).games@[j]
                        == old(state).games@[j]
                &&& final(state).games@[ri].0 == old(state).games@[ri].0
                &&& new_room.board == room.board
                &&& new_room.name == room.name
                &&& new_room.solutions == room.solutions
                &&& new_room.found_once == room.found_once
                &&& new_room.found_twice == room.found_twice
                &&& new_room.start_time == room.start_time
                &&& new_room.expiration_time == room.expiration_time
                &&& new_room.game_number == room.game_number
                &&& new_room.status == if round_over(room.start_time, now) {
                    crate::game_state::GameStatus::InLobby
                } else {
                    room.status
                }
                &&& new_room.players@.len() == room.players@.len()
                &&& forall|j: int|
                    0 <= j < room.players@.len() && j != pi ==> #[trigger] new_room.players@[j]
                        == room.players@[j]
                &&& new_room.players@[pi].0 == room.players@[pi].0
                &&& new_player.name == player.name
                &&& new_player.valid_guesses@ == player.valid_guesses@.map_values(
                    |g: Guess| downgrade(g, room.found_twice@),
                )
                &&& score_after_poll(
                    player.valid_guesses@,
                    room.found_twice@,
                    player.score as int,
                ) == Ok::<int, RequestError>(new_player.score as int)
                &&& r matches Ok(resp) && resp.time == (if now >= room.start_time {
                    now - room.start_time
                } else {
                    0
                }) && lists_guesses(resp.valid_guesses@, new_player.valid_guesses@) && resp.score
                    == new_player.score && resp.status == (new_room.status
                    == crate::game_state::GameStatus::InProgress)
                &&& scores_covered(room) ==> scores_covered(new_room)
                &&& room_consistent(room) ==> room_consistent(new_room)
            },
        },
        has_key(old(state).games@, room_id@) && has_key(room_of(*old(state), room_id@).players@, player_id@)
            && score_covers(value_of_key(room_of(*old(state), room_id@).players@, player_id@))
            ==> r is Ok,
        old(state).wf() ==> final(state).wf(),
{
    let ri = match find_key(&state.games, room_id) {
        Some(i) => i,
        None => {
            return Err(RequestError::RoomNotFound);
        },
    };
    let pi = match find_key(&state.games[ri].1.players, player_id) {
        Some(i) => i,
        None => {
            return Err(RequestError::PlayerNotFound);
        },
    };
    let ghost old_room = state.games@[ri as int].1;
    let (new_guesses, new_score) = {
        let room = &state.games[ri].1;
        let player = &room.players[pi].1;
        proof {
            if score_covers(*player) {
                lemma_poll_covered(player.valid_guesses@, room.found_twice@, player.score as int);
            }
        }
        match downgrade_guesses(&player.valid_guesses, &room.found_twice, player.score) {
            Ok(v) => v,
            Err(e) => {
                return Err(e);
            },
        }
    };
    let room = &mut state.games[ri].1;
    room.players[pi].1.valid_guesses = new_guesses;
    room.players[pi].1.score = new_score;
    if now.saturating_sub(room.start_time) / 1_000_000_000 > 2 * 60 {
        room.status = crate::game_state::GameStatus::InLobby;
    }
    proof {
        crate::entries::lemma_first_key_exists(room.players@, player_id@, pi as int);
        if room_consistent(old_room) {
            lemma_poll_keeps_room_consistent(old_room, *room, pi as int);
        }
        if scores_covered(old_room) {
            let old_player = old_room.players@[pi as int].1;
            assert(score_covers(old_player));
            lemma_poll_covered(old_player.valid_guesses@, old_room.found_twice@, old_player.score as int);
            assert forall|j: int| 0 <= j < room.players@.len() implies score_covers(
                #[trigger] room.players@[j].1,
            ) by {
                if j != pi {
                    assert(room.players@[j] == old_room.players@[j]);
                    assert(score_covers(old_room.players@[j].1));
                }
            }
        }
    }
    proof {
        if old(state).wf() {
            assert(old(state).games@[ri as int].1.wf());
            lemma_same_player_keys(old(state).games@[ri as int].1, state.games@[ri as int].1);
            lemma_wf_update(*old(state), *state, ri as int);
        }
    }
    let response = GamePollResponse::from_room_and_player(player_id, &state.games[ri].1, now);
    Ok(response)
}

/// Scores the guess `word` of player `player_id` in session `room_id` at
/// time `now`: the word is put in lower case and scored as
/// `eval_lowercase_guess` says.
pub fn eval_guess(
    state: &mut GameState,
    room_id: &String,
    player_id: &String,
    word: &String,
    now: u64,
) -> (r: Result<GuessResponse, RequestError>)
    ensures
        match guess_error(*old(state), room_id@, player_id@, lowercase_text(word@), now) {
            Some(e) => r == Err::<GuessResponse, RequestError>(e) && *final(state) == *old(state),
            None => guess_applied(
                *old(state),
                *final(state),
                room_id@,
                player_id@,
                lowercase_text(word@),
                now,
            ) && {
                let ri = index_of_key(old(state).games@, room_id@);
                let pi = index_of_key(room_of(*old(state), room_id@).players@, player_id@);
                let new_player = final(state).games@[ri].1.players@[pi].1;
                &&& r matches Ok(resp) && lists_guesses(resp.valid_guesses@, new_player.valid_guesses@)
                    && resp.score == new_player.score
                &&& scores_covered(old(state).games@[ri].1) ==> scores_covered(final(state).games@[ri].1)
            },
        },
        old(state).wf() ==> final(state).wf(),
{
    let guess = to_lowercase(word.as_str());
    eval_lowercase_guess(state, room_id, player_id, &guess, now)
}


/// A word scores at most once for a player: once a guess of `g` has been
/// scored, the session and the player are still there, and guessing `g`
/// again neither counts nor earns anything.
pub proof fn lemma_guess_scores_once(
    before: GameState,
    after: GameState,
    room_id: Seq<char>,
    player_id: Seq<char>,
    g: Seq<char>,
    now: u64,
)
    requires
        guess_error(before, room_id, player_id, g, now) is None,
        guess_applied(before, after, room_id, player_id, g, now),
    ensures
        has_key(after.games@, room_id),
        has_key(room_of(after, room_id).players@, player_id),
        !counts(room_of(after, room_id), player_id, g),
        points_earned(room_of(after, room_id), player_id, g) == 0,
{
    let ri = index_of_key(before.games@, room_id);
    let room = room_of(before, room_id);
    let pi = index_of_key(room.players@, player_id);
    let gj = choose|j: int| 0 <= j < before.games@.len() && #[trigger] before.games@[j].0@ == room_id;
    lemma_first_key_exists(before.games@, room_id, gj);
    let pj = choose|j: int| 0 <= j < room.players@.len() && #[trigger] room.players@[j].0@ == player_id;
    lemma_first_key_exists(room.players@, player_id, pj);
    assert(is_first_key(after.games@, room_id, ri)) by {
        assert forall|j: int| 0 <= j < ri implies after.games@[j].0@ != room_id by {
            assert(after.games@[j] == before.games@[j]);
        }
    }
    crate::entries::lemma_index_of_key(after.games@, room_id, ri);
    let new_room = after.games@[ri].1;
    assert(is_first_key(new_room.players@, player_id, pi)) by {
        assert forall|j: int| 0 <= j < pi implies new_room.players@[j].0@ != player_id by {
            assert(new_room.players@[j] == room.players@[j]);
        }
    }
    crate::entries::lemma_index_of_key(new_room.players@, player_id, pi);
    let player = room.players@[pi].1;
    let new_player = new_room.players@[pi].1;
    if counts(room, player_id, g) {
        assert(new_player.valid_guesses@[0].word@ == g);
        assert(guessed(new_player.valid_guesses@, g));
    } else if has_text(room.solutions@, g) {
        assert(guessed(player.valid_guesses@, g));
        assert(guessed(new_player.valid_guesses@, g));
    }
}

/// What a guess earns: the points of its length in `SCORES` when it is a
/// solution the player has not found yet and nobody in the session has
/// found it before (it is neither among the words found once nor among
/// those found twice); nothing otherwise, in particular nothing for the
/// second and every later finder.
pub proof fn lemma_guess_points(
    before: GameState,
    after: GameState,
    room_id: Seq<char>,
    player_id: Seq<char>,
    g: Seq<char>,
    now: u64,
)
    requires
        guess_error(before, room_id, player_id, g, now) is None,
        guess_applied(before, after, room_id, player_id, g, now),
    ensures
        ({
            let room = room_of(before, room_id);
            let old_score = value_of_key(room.players@, player_id).score;
            let new_score = value_of_key(room_of(after, room_id).players@, player_id).score;
            &&& (has_text(room.found_once@, g) || has_text(room.found_twice@, g)) ==> new_score
                == old_score
            &&& (has_text(room.solutions@, g) && !guessed(
                value_of_key(room.players@, player_id).valid_guesses@,
                g,
            ) && !has_text(room.found_once@, g) && !has_text(room.found_twice@, g)) ==> (word_score(
                byte_len(g),
            ) is Some && new_score == old_score + word_score(byte_len(g)).unwrap())
            &&& !(has_text(room.solutions@, g) && !guessed(
                value_of_key(room.players@, player_id).valid_guesses@,
                g,
            )) ==> new_score == old_score
        }),
{
    let ri = index_of_key(before.games@, room_id);
    let room = room_of(before, room_id);
    let pi = index_of_key(room.players@, player_id);
    let gj = choose|j: int| 0 <= j < before.games@.len() && #[trigger] before.games@[j].0@ == room_id;
    lemma_first_key_exists(before.games@, room_id, gj);
    let pj = choose|j: int| 0 <= j < room.players@.len() && #[trigger] room.players@[j].0@ == player_id;
    lemma_first_key_exists(room.players@, player_id, pj);
    assert(is_first_key(after.games@, room_id, ri)) by {
        assert forall|j: int| 0 <= j < ri implies after.games@[j].0@ != room_id by {
            assert(after.games@[j] == before.games@[j]);
        }
    }
    crate::entries::lemma_index_of_key(after.games@, room_id, ri);
    let new_room = after.games@[ri].1;
    assert(is_first_key(new_room.players@, player_id, pi)) by {
        assert forall|j: int| 0 <= j < pi implies new_room.players@[j].0@ != player_id by {
            assert(new_room.players@[j] == room.players@[j]);
        }
    }
    crate::entries::lemma_index_of_key(new_room.players@, player_id, pi);
}

/// A guess keeps the words a session records in agreement: the words found
/// once and twice stay listed once each, every word found twice stays among
/// those found once, every player's words stay their own and found, and no
/// word comes to count as found once for two players.
pub proof fn lemma_guess_keeps_room_consistent(
    before: GameState,
    after: GameState,
    room_id: Seq<char>,
    player_id: Seq<char>,
    g: Seq<char>,
    now: u64,
)
    requires
        guess_error(before, room_id, player_id, g, now) is None,
        guess_applied(before, after, room_id, player_id, g, now),
        room_consistent(room_of(before, room_id)),
    ensures
        room_consistent(room_of(after, room_id)),
{
    let ri = index_of_key(before.games@, room_id);
    let room = room_of(before, room_id);
    let pi = index_of_key(room.players@, player_id);
    let gj = choose|j: int| 0 <= j < before.games@.len() && #[trigger] before.games@[j].0@ == room_id;
    lemma_first_key_exists(before.games@, room_id, gj);
    let pj = choose|j: int| 0 <= j < room.players@.len() && #[trigger] room.players@[j].0@ == player_id;
    lemma_first_key_exists(room.players@, player_id, pj);
    assert(is_first_key(after.games@, room_id, ri)) by {
        assert forall|j: int| 0 <= j < ri implies after.games@[j].0@ != room_id by {
            assert(after.games@[j] == before.games@[j]);
        }
    }
    crate::entries::lemma_index_of_key(after.games@, room_id, ri);
    let nr = after.games@[ri].1;
    assert(room_of(after, room_id) == nr);
    let player = room.players@[pi].1;
    let np = nr.players@[pi].1;
    let counted = counts(room, player_id, g);
    let first = first_to_find(room, g);
    let once = room.found_once@;
    let once2 = nr.found_once@;
    let twice = room.found_twice@;
    let twice2 = nr.found_twice@;
    // what the found lists hold afterwards
    if counted && first {
        assert(once2 =~= once.push(once2.last()));
        lemma_has_text_push(once, once2.last());
    }
    if counted && !first && !has_text(twice, g) {
        assert(twice2 =~= twice.push(twice2.last()));
        lemma_has_text_push(twice, twice2.last());
    }
    assert forall|w: Seq<char>| has_text(once, w) implies #[trigger] has_text(once2, w) by {}
    assert(counted ==> has_text(once2, g)) by {
        if counted && !first {
            if has_text(twice, g) {
                assert(has_text(once, g));
            }
        }
    }
    assert(distinct_texts(once2)) by {
        if counted && first {
            assert forall|a: int, b: int| 0 <= a < b < once2.len() implies #[trigger] once2[a]@
                != #[trigger] once2[b]@ by {
                assert(once2[a] == once[a]);
                if b < once.len() {
                    assert(once2[b] == once[b]);
                } else if once2[a]@ == once2[b]@ {
                    assert(has_text(once, g));
                }
            }
        }
    }
    assert(distinct_texts(twice2)) by {
        if counted && !first && !has_text(twice, g) {
            assert forall|a: int, b: int| 0 <= a < b < twice2.len() implies #[trigger] twice2[a]@
                != #[trigger] twice2[b]@ by {
                assert(twice2[a] == twice[a]);
                if b < twice.len() {
                    assert(twice2[b] == twice[b]);
                } else if twice2[a]@ == twice2[b]@ {
                    assert(has_text(twice, g));
                }
            }
        }
    }
    assert forall|w: Seq<char>| #[trigger] has_text(twice2, w) implies has_text(once2, w) by {
        if counted && !first && !has_text(twice, g) && w == g {
            assert(has_text(once, g));
        } else {
            assert(has_text(twice, w));
            assert(has_text(once, w));
        }
    }
    // the player's own words
    assert(guesses_recorded(player.valid_guesses@, once));
    assert(guesses_recorded(np.valid_guesses@, once2)) by {
        let gs = player.valid_guesses@;
        let ngs = np.valid_guesses@;
        if counted {
            assert(ngs =~= seq![ngs[0]] + gs);
            assert forall|a: int, b: int| 0 <= a < b < ngs.len() implies (#[trigger] ngs[a]).word@
                != (#[trigger] ngs[b]).word@ by {
                assert(ngs[b] == gs[b - 1]);
                if a == 0 {
                    if ngs[b].word@ == g {
                        assert(guessed(gs, g));
                    }
                } else {
                    assert(ngs[a] == gs[a - 1]);
                }
            }
            assert forall|a: int| 0 <= a < ngs.len() implies has_text(once2, (#[trigger] ngs[a]).word@) by {
                if a > 0 {
                    assert(ngs[a] == gs[a - 1]);
                    assert(has_text(once, gs[a - 1].word@));
                }
            }
        } else {
            assert(ngs == gs);
            assert forall|a: int| 0 <= a < ngs.len() implies has_text(once2, (#[trigger] ngs[a]).word@) by {
                assert(has_text(once, gs[a].word@));
            }
        }
    }
    assert forall|i: int| 0 <= i < nr.players@.len() implies guesses_recorded(
        (#[trigger] nr.players@[i]).1.valid_guesses@,
        once2,
    ) by {
        if i != pi {
            assert(nr.players@[i] == room.players@[i]);
            let gs = room.players@[i].1.valid_guesses@;
            assert(guesses_recorded(gs, once));
            assert forall|a: int| 0 <= a < gs.len() implies has_text(once2, (#[trigger] gs[a]).word@) by {
                assert(has_text(once, gs[a].word@));
            }
        }
    }
    // no word found once by two players
    assert(once_unique(nr)) by {
        assert forall|i: int, j: int, a: int, b: int|
            0 <= i < nr.players@.len() && 0 <= j < nr.players@.len() && i != j && 0 <= a
                < nr.players@[i].1.valid_guesses@.len() && 0 <= b < nr.players@[j].1.valid_guesses@.len()
                && (#[trigger] nr.players@[i].1.valid_guesses@[a]).found == Found::Once
                && (#[trigger] nr.players@[j].1.valid_guesses@[b]).found == Found::Once
            implies nr.players@[i].1.valid_guesses@[a].word@ != nr.players@[j].1.valid_guesses@[b].word@ by {
            let x = nr.players@[i].1.valid_guesses@[a];
            let y = nr.players@[j].1.valid_guesses@[b];
            // the guess at (k, c) of the new session, as a guess of the old one
            if counted && i == pi && a == 0 {
                assert(x.word@ == g);
                assert(nr.players@[j] == room.players@[j]);
                assert(guesses_recorded(room.players@[j].1.valid_guesses@, once));
                assert(has_text(once, room.players@[j].1.valid_guesses@[b].word@));
            } else if counted && j == pi && b == 0 {
                assert(y.word@ == g);
                assert(nr.players@[i] == room.players@[i]);
                assert(guesses_recorded(room.players@[i].1.valid_guesses@, once));
                assert(has_text(once, room.players@[i].1.valid_guesses@[a].word@));
            } else {
                let oa = if counted && i == pi { a - 1 } else { a };
                let ob = if counted && j == pi { b - 1 } else { b };
                if i == pi {
                    if counted {
                        assert(np.valid_guesses@.drop_first() =~= player.valid_guesses@);
                        assert(x == player.valid_guesses@[a - 1]);
                    } else {
                        assert(x == player.valid_guesses@[a]);
                    }
                } else {
                    assert(nr.players@[i] == room.players@[i]);
                }
                if j == pi {
                    if counted {
                        assert(np.valid_guesses@.drop_first() =~= player.valid_guesses@);
                        assert(y == player.valid_guesses@[b - 1]);
                    } else {
                        assert(y == player.valid_guesses@[b]);
                    }
                } else {
                    assert(nr.players@[j] == room.players@[j]);
                }
                assert(x == room.players@[i].1.valid_guesses@[oa]);
                assert(y == room.players@[j].1.valid_guesses@[ob]);
                assert(once_unique(room));
            }
        }
    }
}

/// Checks whether session `token` has expired at time `now`: if so it is
/// removed and handed back (for the log), otherwise nothing changes.
pub fn check_cleanup(state: &mut GameState, token: &String, now: u64) -> (r: Result<
    Option<Game>,
    RequestError,
>)
    ensures
        !has_key(old(state).games@, token@) ==> r == Err::<Option<Game>, RequestError>(
            RequestError::RoomNotFound,
        ) && *final(state) == *old(state),
        has_key(old(state).games@, token@) ==> {
            let ri = index_of_key(old(state).games@, token@);
            let room = room_of(*old(state), token@);
            if now >= room.expiration_time {
                &&& r == Ok::<Option<Game>, RequestError>(Some(room))
                &&& final(state).games@ == old(state).games@.remove(ri)
            } else {
                &&& r == Ok::<Option<Game>, RequestError>(None)
                &&& *final(state) == *old(state)
            }
        },
        old(state).wf() ==> final(state).wf(),
{
    let ri = match find_key(&state.games, token) {
        Some(i) => i,
        None => {
            return Err(RequestError::RoomNotFound);
        },
    };
    if now >= state.games[ri].1.expiration_time {
        let (_, game) = state.games.remove(ri);
        proof {
            if old(state).wf() {
                crate::entries::lemma_keys_after_remove(old(state).games@, ri as int);
                assert forall|i: int| 0 <= i < state.games@.len() implies (
                #[trigger] state.games@[i]).1.wf() by {
                    if i < ri {
                        assert(state.games@[i] == old(state).games@[i]);
                    } else {
                        assert(state.games@[i] == old(state).games@[i + 1]);
                    }
                }
            }
        }
        Ok(Some(game))
    } else {
        Ok(None)
    }
}

/// The refusal a lobby poll meets, if any.
pub open spec fn lobby_poll_error(
    state: GameState,
    room_id: Seq<char>,
    button_state: ButtonState,
    now: u64,
) -> Option<RequestError> {
    let room = room_of(state, room_id);
    if !has_key(state.games@, room_id) {
        Some(RequestError::RoomNotFound)
    } else if (starts_round(room.status, button_state) && room.game_number == usize::MAX) || now as int
        + LIFETIME_NANOS as int > u64::MAX {
        Some(RequestError::Overflow)
    } else {
        None
    }
}

/// Polls the lobby of session `room_id` at time `now`, the start button
/// reading `button_state`: the session is activated (a round starts when
/// it waits in the lobby and the button is released, on a board of the
/// letters of the draw), then expires `LIFETIME_NANOS` after `now`. The
/// answer shows the players, whether a round is on and whether no round
/// has started yet.
pub fn poll_lobby(
    state: &mut GameState,
    room_id: &String,
    button_state: &ButtonState,
    trie: &TrieNode,
    letter_indices: &Vec<usize>,
    now: u64,
) -> (r: Result<LobbyPollResponse, RequestError>)
    requires
        crate::board::is_draw(letter_indices@),
    ensures
        match lobby_poll_error(*old(state), room_id@, *button_state, now) {
            Some(e) => r == Err::<LobbyPollResponse, RequestError>(e) && *final(state) == *old(state),
            None => {
                let ri = index_of_key(old(state).games@, room_id@);
                let room = room_of(*old(state), room_id@);
                let new_room = final(state).games@[ri].1;
                &&& final(state).games@.len() == old(state).games@.len()
                &&& forall|j: int|
                    0 <= j < old(state).games@.len() && j != ri ==> #[trigger] final(state).games@[j]
                        == old(state).games@[j]
                &&& final(state).games@[ri].0 == old(state).games@[ri].0
                &&& activated(
                    room,
                    Game { expiration_time: room.expiration_time, ..new_room },
                    *trie,
                    *button_state,
                    letter_indices@,
                    now,
                )
                &&& room_consistent(room) ==> room_consistent(new_room)
                &&& new_room.expiration_time == now + LIFETIME_NANOS
                &&& r matches Ok(resp) && resp.player_list@.len() == new_room.players@.len() && (
                forall|i: int|
                    0 <= i < new_room.players@.len() ==> shows_player(
                        #[trigger] resp.player_list@[i],
                        new_room.players@[i].1,
                    )) && resp.status == (new_room.status
                    == crate::game_state::GameStatus::InProgress) && resp.is_first == (
                new_room.game_number == 0)
            },
        },
        old(state).wf() ==> final(state).wf(),
{
    let ri = match find_key(&state.games, room_id) {
        Some(i) => i,
        None => {
            return Err(RequestError::RoomNotFound);
        },
    };
    let would_start = match state.games[ri].1.status {
        crate::game_state::GameStatus::InLobby => match button_state {
            ButtonState::Inactive => true,
            ButtonState::Active => false,
        },
        crate::game_state::GameStatus::InProgress => false,
    };
    if (would_start && state.games[ri].1.game_number == usize::MAX) || now > u64::MAX
        - LIFETIME_NANOS {
        return Err(RequestError::Overflow);
    }
    let room = &mut state.games[ri].1;
    room.activate(trie, button_state, letter_indices, now);
    let response = LobbyPollResponse::from_room(room);
    room.expiration_time = now + LIFETIME_NANOS;
    proof {
        if old(state).wf() {
            assert(old(state).games@[ri as int].1.wf());
            lemma_same_player_keys(old(state).games@[ri as int].1, state.games@[ri as int].1);
            lemma_wf_update(*old(state), *state, ri as int);
        }
    }
    Ok(response)
}

/// The title of a session's page: `BogChamp: ` and the session's name.
fn page_title(name: &String) -> (r: String)
    ensures
        r@ == "BogChamp: "@ + name@,
{
    let prefix = String::from_str("BogChamp: ");
    prefix.concat(name.as_str())
}

/// A copy of the board's rows.
fn copy_rows(letters: &Vec<Vec<char>>) -> (r: Vec<Vec<char>>)
    ensures
        r@.len() == letters@.len(),
        forall|i: int| 0 <= i < letters@.len() ==> (#[trigger] r@[i])@ == letters@[i]@,
{
    let mut rows: Vec<Vec<char>> = Vec::new();
    let mut i: usize = 0;
    while i < letters.len()
        invariant
            i <= letters@.len(),
            rows@.len() == i,
            forall|j: int| 0 <= j < i ==> (#[trigger] rows@[j])@ == letters@[j]@,
        decreases letters@.len() - i,
    {
        rows.push(copy_chars(&letters[i]));
        i += 1;
    }
    rows
}

/// The board is four rows of four letters.
fn board_is_square(board: &BoggleBoard) -> (r: bool)
    ensures
        r == board.is_square(),
{
    if board.letters.len() != 4 {
        return false;
    }
    let mut i: usize = 0;
    while i < 4
        invariant
            i <= 4,
            board.letters@.len() == 4,
            forall|j: int| 0 <= j < i ==> (#[trigger] board.letters@[j])@.len() == 4,
        decreases 4 - i,
    {
        if board.letters[i].len() != 4 {
            return false;
        }
        i += 1;
    }
    true
}

/// What the page of a session shows one of its players.
pub struct RoomPage {
    pub title: String,
    pub room_name: String,
    pub player_name: String,
    pub rows: Vec<Vec<char>>,
    pub solutions: Vec<Vec<String>>,
    pub n_solutions: usize,
}

/// What the page of a single-player session shows.
pub struct SinglePlayerPage {
    pub session_token: String,
    pub rows: Vec<Vec<char>>,
    pub solutions: Vec<Vec<String>>,
    pub n_solutions: usize,
}

/// `page` shows `room` to `player`, the solutions being `solutions`.
pub open spec fn shows_room(page: RoomPage, room: Game, player_name: Seq<char>) -> bool {
    &&& page.title@ == "BogChamp: "@ + room.name@
    &&& page.room_name@ == room.name@
    &&& page.player_name@ == player_name
    &&& page.rows@.len() == room.board.letters@.len()
    &&& forall|i: int| 0 <= i < page.rows@.len() ==> (#[trigger] page.rows@[i])@ == room.board.letters@[i]@
    &&& lays_out(page.solutions@, room.solutions@)
    &&& page.n_solutions == room.solutions@.len()
}

/// The refusal a session page meets, if any.
pub open spec fn page_error(
    state: GameState,
    room_id: Seq<char>,
    player_id: Seq<char>,
) -> Option<RequestError> {
    let room = room_of(state, room_id);
    if !has_key(state.games@, room_id) {
        Some(RequestError::RoomNotFound)
    } else if !has_key(room.players@, player_id) {
        Some(RequestError::PlayerNotFound)
    } else if !room.board.is_square() {
        Some(RequestError::MalformedBoard)
    } else {
        None
    }
}

/// Solves the board of session `ri` again and lays the page out for
/// player `pi`.
fn solve_room(state: &mut GameState, ri: usize, pi: usize, trie: &TrieNode) -> (r: RoomPage)
    requires
        ri < old(state).games@.len(),
        pi < old(state).games@[ri as int].1.players@.len(),
        old(state).games@[ri as int].1.board.is_square(),
    ensures
        final(state).games@ == old(state).games@.update(
            ri as int,
            (
                old(state).games@[ri as int].0,
                Game { solutions: final(state).games@[ri as int].1.solutions, ..old(state).games@[ri as int].1 },
            ),
        ),
        forall|w: Seq<char>| #[trigger] has_text(final(state).games@[ri as int].1.solutions@, w)
            <==> old(state).games@[ri as int].1.board.solution(*trie, w),
        crate::text::distinct_texts(final(state).games@[ri as int].1.solutions@),
        shows_room(r, final(state).games@[ri as int].1, old(state).games@[ri as int].1.players@[pi as int].1.name@),
{
    let room = &mut state.games[ri].1;
    let solutions = room.board.solve(trie);
    let sorted = format_solutions(&solutions);
    let n_solutions = solutions.len();
    room.solutions = solutions;
    let page = RoomPage {
        title: page_title(&room.name),
        room_name: room.name.clone(),
        player_name: room.players[pi].1.name.clone(),
        rows: copy_rows(&room.board.letters),
        solutions: sorted,
        n_solutions,
    };
    page
}

/// The page of session `room_id` for player `player_id`, as the lobby
/// shows it: the board is solved again and its solutions stored.
pub fn lobby(state: &mut GameState, room_id: &String, player_id: &String, trie: &TrieNode) -> (r:
    Result<RoomPage, RequestError>)
    ensures
        match page_error(*old(state), room_id@, player_id@) {
            Some(e) => r == Err::<RoomPage, RequestError>(e) && *final(state) == *old(state),
            None => {
                let ri = index_of_key(old(state).games@, room_id@);
                let room = room_of(*old(state), room_id@);
                let new_room = final(state).games@[ri].1;
                &&& final(state).games@ == old(state).games@.update(
                    ri,
                    (old(state).games@[ri].0, Game { solutions: new_room.solutions, ..room }),
                )
                &&& forall|w: Seq<char>| #[trigger] has_text(new_room.solutions@, w)
                    <==> room.board.solution(*trie, w)
                &&& crate::text::distinct_texts(new_room.solutions@)
                &&& r matches Ok(page) && shows_room(
                    page,
                    new_room,
                    value_of_key(room.players@, player_id@).name@,
                )
            },
        },
        old(state).wf() ==> final(state).wf(),
{
    let ri = match find_key(&state.games, room_id) {
        Some(i) => i,
        None => {
            return Err(RequestError::RoomNotFound);
        },
    };
    let pi = match find_key(&state.games[ri].1.players, player_id) {
        Some(i) => i,
        None => {
            return Err(RequestError::PlayerNotFound);
        },
    };
    if !board_is_square(&state.games[ri].1.board) {
        return Err(RequestError::MalformedBoard);
    }
    let page = solve_room(state, ri, pi, trie);
    proof {
        if old(state).wf() {
            assert(old(state).games@[ri as int].1.wf());
            lemma_same_player_keys(old(state).games@[ri as int].1, state.games@[ri as int].1);
            lemma_wf_update(*old(state), *state, ri as int);
        }
    }
    Ok(page)
}

/// The game page of session `room_id` for player `player_id`: as the lobby
/// page, and the session then expires `LIFETIME_NANOS` after `now`.
pub fn multi_player(
    state: &mut GameState,
    room_id: &String,
    player_id: &String,
    trie: &TrieNode,
    now: u64,
) -> (r: Result<RoomPage, RequestError>)
    ensures
        match page_error(*old(state), room_id@, player_id@) {
            Some(e) => r == Err::<RoomPage, RequestError>(e) && *final(state) == *old(state),
            None => if now as int + LIFETIME_NANOS as int > u64::MAX {
                r == Err::<RoomPage, RequestError>(RequestError::Overflow) && *final(state) == *old(
                    state,
                )
            } else {
                let ri = index_of_key(old(state).games@, room_id@);
                let room = room_of(*old(state), room_id@);
                let new_room = final(state).games@[ri].1;
                &&& final(state).games@ == old(state).games@.update(
                    ri,
                    (
                        old(state).games@[ri].0,
                        Game {
                            solutions: new_room.solutions,
                            expiration_time: (now + LIFETIME_NANOS) as u64,
                            ..room
                        },
                    ),
                )
                &&& forall|w: Seq<char>| #[trigger] has_text(new_room.solutions@, w)
                    <==> room.board.solution(*trie, w)
                &&& crate::text::distinct_texts(new_room.solutions@)
                &&& r matches Ok(page) && shows_room(
                    page,
                    new_room,
                    value_of_key(room.players@, player_id@).name@,
                )
            },
        },
        old(state).wf() ==> final(state).wf(),
{
    let ri = match find_key(&state.games, room_id) {
        Some(i) => i,
        None => {
            return Err(RequestError::RoomNotFound);
        },
    };
    let pi = match find_key(&state.games[ri].1.players, player_id) {
        Some(i) => i,
        None => {
            return Err(RequestError::PlayerNotFound);
        },
    };
    if !board_is_square(&state.games[ri].1.board) {
        return Err(RequestError::MalformedBoard);
    }
    if now > u64::MAX - LIFETIME_NANOS {
        return Err(RequestError::Overflow);
    }
    let page = solve_room(state, ri, pi, trie);
    state.games[ri].1.expiration_time = now + LIFETIME_NANOS;
    proof {
        if old(state).wf() {
            assert(old(state).games@[ri as int].1.wf());
            lemma_same_player_keys(old(state).games@[ri as int].1, state.games@[ri as int].1);
            lemma_wf_update(*old(state), *state, ri as int);
        }
    }
    Ok(page)
}

/// Opens a single-player session on the board of the draw `letter_indices`
/// at `now` (see `GameState::new_session_single`), stores the words found on
/// the board as its solutions, lets it expire `LIFETIME_NANOS` after `now`, and lays out
/// its page. The room id is taken (nothing changes and the caller draws
/// again) only when there are `2^60` sessions or more.
pub fn single_player(state: &mut GameState, trie: &TrieNode, letter_indices: &Vec<usize>, now: u64) -> (r:
    Result<SinglePlayerPage, RequestError>)
    requires
        crate::board::is_draw(letter_indices@),
    ensures
        now as int + LIFETIME_NANOS as int > u64::MAX ==> r == Err::<SinglePlayerPage, RequestError>(
            RequestError::Overflow,
        ) && *final(state) == *old(state),
        r == Err::<SinglePlayerPage, RequestError>(RequestError::Overflow) ==> now as int
            + LIFETIME_NANOS as int > u64::MAX,
        old(state).games@.len() < crate::tokens::token_family_size() ==> r != Err::<
            SinglePlayerPage,
            RequestError,
        >(RequestError::RoomIdTaken),
        r == Err::<SinglePlayerPage, RequestError>(RequestError::RoomIdTaken) ==> *final(state)
            == *old(state) && exists|i: int|
            0 <= i < old(state).games@.len() && is_token(#[trigger] old(state).games@[i].0@),
        r is Err ==> r == Err::<SinglePlayerPage, RequestError>(RequestError::Overflow) || r == Err::<
            SinglePlayerPage,
            RequestError,
        >(RequestError::RoomIdTaken),
        r matches Ok(page) ==> {
            let n = old(state).games@.len();
            let game = final(state).games@[n as int].1;
            &&& is_token(page.session_token@)
            &&& !has_key(old(state).games@, page.session_token@)
            &&& final(state).games@.len() == n + 1
            &&& final(state).games@.take(n as int) == old(state).games@
            &&& final(state).games@[n as int].0@ == page.session_token@
            &&& crate::board::board_of_draw(game.board, letter_indices@)
            &&& game.name@ == "single_player"@
            &&& game.found_once@.len() == 0
            &&& game.found_twice@.len() == 0
            &&& game.players@.len() == 1
            &&& game.players@[0].0@ == "single_player"@
            &&& game.players@[0].1.is_fresh("Joe"@)
            &&& game.start_time == now
            &&& game.status == crate::game_state::GameStatus::InLobby
            &&& game.game_number == 0
            &&& forall|w: Seq<char>| #[trigger] has_text(game.solutions@, w) <==> game.board.solution(
                *trie,
                w,
            )
            &&& crate::text::distinct_texts(game.solutions@)
            &&& game.expiration_time == now + LIFETIME_NANOS
            &&& page.rows@.len() == 4
            &&& forall|i: int| 0 <= i < 4 ==> (#[trigger] page.rows@[i])@ == game.board.letters@[i]@
            &&& lays_out(page.solutions@, game.solutions@)
            &&& page.n_solutions == game.solutions@.len()
        },
        old(state).wf() ==> final(state).wf(),
{
    if now > u64::MAX - LIFETIME_NANOS {
        return Err(RequestError::Overflow);
    }
    let session_token = match state.new_session_single(letter_indices, now) {
        Some(t) => t,
        None => {
            return Err(RequestError::RoomIdTaken);
        },
    };
    let ghost opened = *state;
    let last = state.games.len() - 1;
    let game = &mut state.games[last].1;
    let solutions = game.board.solve(trie);
    let sorted = format_solutions(&solutions);
    let n_solutions = solutions.len();
    game.solutions = solutions;
    game.expiration_time = now + LIFETIME_NANOS;
    let rows = copy_rows(&game.board.letters);
    proof {
        if old(state).wf() {
            assert(opened.games@[last as int].1.wf());
            lemma_same_player_keys(opened.games@[last as int].1, state.games@[last as int].1);
            lemma_wf_update(opened, *state, last as int);
        }
    }
    Ok(SinglePlayerPage { session_token, rows, solutions: sorted, n_solutions })
}

/// Adds a player called `player_name` to session `room_id` under a new
/// random token, and returns the token.
pub fn insert_player(state: &mut GameState, room_id: &String, player_name: String) -> (r: Result<
    String,
    RequestError,
>)
    ensures
        !has_key(old(state).games@, room_id@) ==> r == Err::<String, RequestError>(
            RequestError::RoomNotFound,
        ) && *final(state) == *old(state),
        has_key(old(state).games@, room_id@) ==> {
            let ri = index_of_key(old(state).games@, room_id@);
            let room = room_of(*old(state), room_id@);
            let new_room = final(state).games@[ri].1;
            &&& r matches Ok(token) && is_token(token@) && has_key(new_room.players@, token@)
                && value_of_key(new_room.players@, token@).is_fresh(player_name@)
            &&& final(state).games@ == old(state).games@.update(
                ri,
                (old(state).games@[ri].0, Game { players: new_room.players, ..room }),
            )
            &&& room_consistent(room) ==> room_consistent(new_room)
            &&& forall|k: Seq<char>| has_key(room.players@, k) && (r matches Ok(token) && k != token@)
                ==> #[trigger] has_key(new_room.players@, k) && value_of_key(new_room.players@, k)
                == value_of_key(room.players@, k)
        },
        old(state).wf() ==> final(state).wf(),
{
    let ri = match find_key(&state.games, room_id) {
        Some(i) => i,
        None => {
            return Err(RequestError::RoomNotFound);
        },
    };
    let room = &mut state.games[ri].1;
    let player_id = room.new_player(player_name);
    proof {
        if old(state).wf() {
            assert(old(state).games@[ri as int].1.wf());
            lemma_wf_update(*old(state), *state, ri as int);
        }
    }
    Ok(player_id)
}

} // verus!
