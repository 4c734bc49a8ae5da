//! What the server answers to polls and guesses.
use vstd::prelude::*;

use crate::entries::{has_key, value_of_key, find_key};
use crate::game_state::{Found, Game, GameStatus, Guess, Player};

verus! {

/// The state of the start button in the lobby.
#[derive(Debug)]
pub enum ButtonState {
    Active,
    Inactive,
}

/// One player as the lobby shows them: name, score and the words only they
/// found.
pub struct PlayerResponse {
    pub name: String,
    pub score: usize,
    pub unique_words: Vec<String>,
}

/// The answer to a lobby poll: the players, whether a round is on, and
/// whether no round has started yet.
pub struct LobbyPollResponse {
    pub player_list: Vec<PlayerResponse>,
    pub status: bool,
    pub is_first: bool,
}

/// The answer to a game poll: the time since the round started (in
/// nanoseconds), the player's words with whether only they found each, the
/// player's score and whether the round is on.
pub struct GamePollResponse {
    pub time: u64,
    pub valid_guesses: Vec<(String, bool)>,
    pub score: usize,
    pub status: bool,
}

/// The answer to a guess: the player's words with whether only they found
/// each, and the player's score.
pub struct GuessResponse {
    pub valid_guesses: Vec<(String, bool)>,
    pub score: usize,
}

/// The words of `guesses` that only this player found, in order.
pub open spec fn once_words(guesses: Seq<Guess>) -> Seq<Seq<char>>
    decreases guesses.len(),
{
    if guesses.len() == 0 {
        Seq::empty()
    } else {
        let rest = once_words(guesses.drop_last());
        if guesses.last().found == Found::Once {
            rest.push(guesses.last().word@)
        } else {
            rest
        }
    }
}

/// `listed` shows the guesses one by one: each word, and whether only this
/// player found it.
pub open spec fn lists_guesses(listed: Seq<(String, bool)>, guesses: Seq<Guess>) -> bool {
    &&& listed.len() == guesses.len()
    &&& forall|i: int| 0 <= i < guesses.len() ==> {
        &&& (#[trigger] listed[i]).0@ == guesses[i].word@
        &&& listed[i].1 == (guesses[i].found == Found::Once)
    }
}

/// The texts of a list of strings.
pub open spec fn texts(v: Seq<String>) -> Seq<Seq<char>> {
    v.map_values(|s: String| s@)
}

/// `r` is how the lobby shows `player`.
pub open spec fn shows_player(r: PlayerResponse, player: Player) -> bool {
    &&& r.name@ == player.name@
    &&& r.score == player.score
    &&& texts(r.unique_words@) == once_words(player.valid_guesses@)
}

/// The player's guesses, each word with whether only they found it.
fn list_guesses(player: &Player) -> (r: Vec<(String, bool)>)
    ensures
        lists_guesses(r@, player.valid_guesses@),
{
    let mut valid_guesses: Vec<(String, bool)> = Vec::new();
    let mut i: usize = 0;
    while i < player.valid_guesses.len()
        invariant
            i <= player.valid_guesses@.len(),
            lists_guesses(valid_guesses@, player.valid_guesses@.take(i as int)),
        decreases player.valid_guesses@.len() - i,
    {
        let guess = &player.valid_guesses[i];
        match guess.found {
            Found::Once => valid_guesses.push((guess.word.clone(), true)),
            Found::Twice => valid_guesses.push((guess.word.clone(), false)),
        }
        i += 1;
    }
    proof {
        assert(player.valid_guesses@.take(player.valid_guesses@.len() as int)
            =~= player.valid_guesses@);
    }
    valid_guesses
}

/// The words of the player's guesses that only they found.
fn unique_words(player: &Player) -> (r: Vec<String>)
    ensures
        texts(r@) == once_words(player.valid_guesses@),
{
    let mut words: Vec<String> = Vec::new();
    let mut i: usize = 0;
    while i < player.valid_guesses.len()
        invariant
            i <= player.valid_guesses@.len(),
            texts(words@) == once_words(player.valid_guesses@.take(i as int)),
        decreases player.valid_guesses@.len() - i,
    {
        let guess = &player.valid_guesses[i];
        let ghost before = words@;
        proof {
            let t = player.valid_guesses@.take(i + 1);
            assert(t.drop_last() =~= player.valid_guesses@.take(i as int));
            assert(t.last() == *guess);
        }
        match guess.found {
            Found::Once => {
                words.push(guess.word.clone());
                assert(texts(words@) =~= texts(before).push(guess.word@));
            },
            Found::Twice => {},
        }
        i += 1;
    }
    proof {
        assert(player.valid_guesses@.take(player.valid_guesses@.len() as int)
            =~= player.valid_guesses@);
    }
    words
}

impl LobbyPollResponse {
    /// The lobby view of a session: every player in order, whether a
    /// round is on, and whether no round has started yet.
    pub fn from_room(game: &Game) -> (r: Self)
        ensures
            r.player_list@.len() == game.players@.len(),
            forall|i: int| 0 <= i < game.players@.len() ==> shows_player(
                #[trigger] r.player_list@[i],
                game.players@[i].1,
            ),
            r.status == (game.status == GameStatus::InProgress),
            r.is_first == (game.game_number == 0),
    {
        let mut player_list: Vec<PlayerResponse> = Vec::new();
        let mut i: usize = 0;
        while i < game.players.len()
            invariant
                i <= game.players@.len(),
                player_list@.len() == i,
                forall|j: int| 0 <= j < i ==> shows_player(
                    #[trigger] player_list@[j],
                    game.players@[j].1,
                ),
            decreases game.players@.len() - i,
        {
            let player = &game.players[i].1;
            let score = player.score;
            let name = player.name.clone();
            let unique_words = unique_words(player);
            player_list.push(PlayerResponse { name, score, unique_words });
            i += 1;
        }
        let status = match game.status {
            GameStatus::InLobby => false,
            GameStatus::InProgress => true,
        };
        let is_first = match game.game_number {
            0 => true,
            _ => false,
        };
        Self { player_list, status, is_first }
    }
}

impl GamePollResponse {
    /// The game view of a session for one of its players: the time since
    /// the round started (none if the clock reads earlier), the player's
    /// words, score, and whether a round is on.
    pub fn from_room_and_player(player_id: &String, room: &Game, now: u64) -> (r: Self)
        requires
            has_key(room.players@, player_id@),
        ensures
            r.time == if now >= room.start_time { (now - room.start_time) as u64 } else { 0 },
            lists_guesses(r.valid_guesses@, value_of_key(room.players@, player_id@).valid_guesses@),
            r.score == value_of_key(room.players@, player_id@).score,
            r.status == (room.status == GameStatus::InProgress),
    {
        let index = match find_key(&room.players, player_id) {
            Some(i) => i,
            None => {
                return Self { time: 0, valid_guesses: Vec::new(), score: 0, status: false };
            },
        };
        let player = &room.players[index].1;
        let valid_guesses = list_guesses(player);
        let time = now.saturating_sub(room.start_time);
        let score = player.score;
        let status = match room.status {
            GameStatus::InLobby => false,
            GameStatus::InProgress => true,
        };
        Self { time, valid_guesses, score, status }
    }
}

impl GuessResponse {
    /// The player's words, each with whether only they found it, and
    /// their score.
    pub fn from_player(player: &Player) -> (r: Self)
        ensures
            lists_guesses(r.valid_guesses@, player.valid_guesses@),
            r.score == player.score,
    {
        let valid_guesses = list_guesses(player);
        let score = player.score;
        Self { valid_guesses, score }
    }
}

} // verus!
