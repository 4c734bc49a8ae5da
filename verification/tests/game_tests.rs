use bogchamp::board::{BoggleBoard, LETTERS};
use bogchamp::game_state::{score_for_length, Found, GameState, GameStatus, SCORES};
use bogchamp::responses::{ButtonState, GamePollResponse, GuessResponse, LobbyPollResponse};
use bogchamp::trie::TrieNode;
use bogchamp::web_server::{
    check_cleanup, eval_guess, eval_lowercase_guess, insert_player, lobby, multi_player,
    poll_game, poll_lobby, single_player, RequestError, LIFETIME_NANOS, LIFETIME_SECONDS,
};

/// The draw that puts these rows of letters on the board.
fn draw(rows: [&str; 4]) -> Vec<usize> {
    rows.iter()
        .flat_map(|r| r.chars())
        .map(|c| LETTERS.iter().position(|l| *l == c).unwrap())
        .collect()
}

fn trie(words: &[&str]) -> TrieNode {
    TrieNode::build_trie(&words.iter().map(|w| w.to_string()).collect())
}

fn s(x: &str) -> String {
    x.to_string()
}

fn open_room(state: &mut GameState, name: &str, d: Vec<usize>, now: u64) -> String {
    loop {
        if let Some(id) = state.new_session_multi(s(name), &d, now) {
            return id;
        }
    }
}

fn room_index(state: &GameState, id: &str) -> usize {
    state.games.iter().position(|(k, _)| k == id).unwrap()
}

fn player_index(state: &GameState, room: usize, id: &str) -> usize {
    state.games[room].1.players.iter().position(|(k, _)| k == id).unwrap()
}

/// A room on the "cats" board with two players and solutions set.
fn setup() -> (GameState, String, String, String) {
    let mut state = GameState::new();
    let id = open_room(&mut state, "room", draw(["cats", "dogs", "bird", "fish"]), 0);
    let alice = insert_player(&mut state, &id, s("alice")).unwrap();
    let bob = insert_player(&mut state, &id, s("bob")).unwrap();
    let t = trie(&["cats", "stag", "dogs", "bird", "fish", "goat"]);
    lobby(&mut state, &id, &alice, &t).unwrap();
    (state, id, alice, bob)
}

#[test]
fn score_table() {
    assert_eq!(score_for_length(3), None);
    assert_eq!(score_for_length(4), Some(2));
    assert_eq!(score_for_length(5), Some(4));
    assert_eq!(score_for_length(9), Some(33));
    assert_eq!(score_for_length(16), Some(986));
    assert_eq!(score_for_length(17), None);
    for (len, points) in SCORES.iter() {
        assert_eq!(score_for_length(*len), Some(*points));
    }
    assert_eq!(LIFETIME_NANOS, LIFETIME_SECONDS * 1_000_000_000);
}

#[test]
fn sessions_open_and_close() {
    let mut state = GameState::new();
    assert!(state.games.is_empty());
    let id = open_room(&mut state, "friends", draw(["cats", "dogs", "bird", "fish"]), 5);
    assert_eq!(id.len(), 12);
    assert!(id.chars().all(|c| c.is_ascii_alphanumeric()));
    let g = &state.games[room_index(&state, &id)].1;
    assert_eq!(g.name, "friends");
    assert_eq!(g.board.letters, vec![vec!['c', 'a', 't', 's'], vec!['d', 'o', 'g', 's'], vec!['b', 'i', 'r', 'd'], vec!['f', 'i', 's', 'h']]);
    assert!(g.players.is_empty());
    assert!(g.status == GameStatus::InLobby);
    assert_eq!(g.game_number, 0);
    assert_eq!(g.start_time, 5);
    state.forget(id.clone());
    assert!(state.games.iter().all(|(k, _)| *k != id));
    state.forget(s("no such room"));
    assert!(state.games.is_empty());
}

#[test]
fn single_player_session() {
    let mut state = GameState::new();
    let t = trie(&["cats", "dogs", "goat"]);
    let page = loop {
        match single_player(&mut state, &t, &draw(["cats", "dogs", "bird", "fish"]), 10) {
            Ok(page) => break page,
            Err(e) => assert_eq!(e, RequestError::RoomIdTaken),
        }
    };
    assert_eq!(page.session_token.len(), 12);
    assert_eq!(page.n_solutions, 3);
    assert_eq!(page.rows[0], vec!['c', 'a', 't', 's']);
    let g = &state.games[0].1;
    assert_eq!(g.name, "single_player");
    assert_eq!(g.players.len(), 1);
    assert_eq!(g.players[0].0, "single_player");
    assert_eq!(g.players[0].1.name, "Joe");
    assert_eq!(g.expiration_time, 10 + LIFETIME_NANOS);
    assert_eq!(page.solutions.len(), 1);
    assert_eq!(page.solutions[0].len(), 3);
    // the player of a single-player room guesses under its fixed token
    let r = eval_guess(&mut state, &page.session_token, &s("single_player"), &s("GOAT"), 11).unwrap();
    assert_eq!(r.valid_guesses, vec![(s("goat"), true)]);
    assert_eq!(r.score, 2);
}

#[test]
fn single_player_refuses_time_overflow() {
    let mut state = GameState::new();
    let t = trie(&["cats"]);
    let r = single_player(&mut state, &t, &draw(["cats", "dogs", "bird", "fish"]), u64::MAX);
    assert!(matches!(r, Err(RequestError::Overflow)));
    assert!(state.games.is_empty());
}

#[test]
fn players_join_rooms() {
    let mut state = GameState::new();
    let id = open_room(&mut state, "r", draw(["cats", "dogs", "bird", "fish"]), 0);
    let p = insert_player(&mut state, &id, s("carol")).unwrap();
    assert_eq!(p.len(), 12);
    let g = &state.games[0].1;
    assert_eq!(g.players.len(), 1);
    assert_eq!(g.players[0].0, p);
    assert_eq!(g.players[0].1.name, "carol");
    assert_eq!(g.players[0].1.score, 0);
    assert!(g.players[0].1.valid_guesses.is_empty());
    assert!(matches!(insert_player(&mut state, &s("nope"), s("dan")), Err(RequestError::RoomNotFound)));
}

#[test]
fn first_finder_scores() {
    let (mut state, id, alice, _bob) = setup();
    let r = eval_guess(&mut state, &id, &alice, &s("Goat"), 100).unwrap();
    assert_eq!(r.valid_guesses, vec![(s("goat"), true)]);
    assert_eq!(r.score, 2);
    let ri = room_index(&state, &id);
    let room = &state.games[ri].1;
    assert_eq!(room.found_once, vec![s("goat")]);
    assert!(room.found_twice.is_empty());
    assert_eq!(room.expiration_time, 100 + LIFETIME_NANOS);
    let pi = player_index(&state, ri, &alice);
    assert_eq!(state.games[ri].1.players[pi].1.valid_guesses[0].found, Found::Once);
}

#[test]
fn second_and_third_finders() {
    let (mut state, id, alice, bob) = setup();
    eval_guess(&mut state, &id, &alice, &s("goat"), 1).unwrap();
    let r = eval_guess(&mut state, &id, &bob, &s("goat"), 2).unwrap();
    assert_eq!(r.valid_guesses, vec![(s("goat"), false)]);
    assert_eq!(r.score, 0);
    let ri = room_index(&state, &id);
    assert_eq!(state.games[ri].1.found_twice, vec![s("goat")]);
    assert_eq!(state.games[ri].1.found_once, vec![s("goat")]);
    let carol = insert_player(&mut state, &id, s("carol")).unwrap();
    let r = eval_guess(&mut state, &id, &carol, &s("goat"), 3).unwrap();
    assert_eq!(r.valid_guesses, vec![(s("goat"), false)]);
    assert_eq!(state.games[ri].1.found_twice, vec![s("goat")]);
}

#[test]
fn guesses_that_do_not_count() {
    let (mut state, id, alice, _bob) = setup();
    let r = eval_guess(&mut state, &id, &alice, &s("zebra"), 1).unwrap();
    assert!(r.valid_guesses.is_empty());
    assert_eq!(r.score, 0);
    eval_guess(&mut state, &id, &alice, &s("dogs"), 2).unwrap();
    let r = eval_guess(&mut state, &id, &alice, &s("DOGS"), 3).unwrap();
    assert_eq!(r.valid_guesses, vec![(s("dogs"), true)]);
    assert_eq!(r.score, 2);
    let r = eval_guess(&mut state, &id, &alice, &s("cats"), 4).unwrap();
    assert_eq!(r.valid_guesses, vec![(s("cats"), true), (s("dogs"), true)]);
    assert_eq!(r.score, 4);
}

#[test]
fn guess_errors() {
    let (mut state, id, alice, _bob) = setup();
    assert!(matches!(
        eval_guess(&mut state, &s("nope"), &alice, &s("goat"), 1),
        Err(RequestError::RoomNotFound)
    ));
    assert!(matches!(
        eval_guess(&mut state, &id, &s("nobody"), &s("goat"), 1),
        Err(RequestError::PlayerNotFound)
    ));
    assert!(matches!(
        eval_guess(&mut state, &id, &alice, &s("goat"), u64::MAX),
        Err(RequestError::Overflow)
    ));
    let ri = room_index(&state, &id);
    state.games[ri].1.solutions.push(s("abcdefghijklmnopq"));
    assert!(matches!(
        eval_lowercase_guess(&mut state, &id, &alice, &s("abcdefghijklmnopq"), 1),
        Err(RequestError::MissingScore)
    ));
    assert!(state.games[ri].1.found_once.is_empty());
}

#[test]
fn poll_takes_back_shared_words() {
    let (mut state, id, alice, bob) = setup();
    eval_guess(&mut state, &id, &alice, &s("goat"), 1).unwrap();
    eval_guess(&mut state, &id, &alice, &s("dogs"), 1).unwrap();
    eval_guess(&mut state, &id, &bob, &s("goat"), 2).unwrap();
    let r = poll_game(&mut state, &id, &alice, 3).unwrap();
    assert_eq!(r.valid_guesses, vec![(s("dogs"), true), (s("goat"), false)]);
    assert_eq!(r.score, 2);
    assert_eq!(r.time, 3);
    assert!(!r.status);
    // polling again changes nothing
    let r = poll_game(&mut state, &id, &alice, 4).unwrap();
    assert_eq!(r.score, 2);
    assert!(matches!(poll_game(&mut state, &s("x"), &alice, 4), Err(RequestError::RoomNotFound)));
    assert!(matches!(poll_game(&mut state, &id, &s("x"), 4), Err(RequestError::PlayerNotFound)));
}

#[test]
fn poll_ends_round_after_two_minutes() {
    let (mut state, id, alice, _bob) = setup();
    let t = trie(&["cats"]);
    poll_lobby(&mut state, &id, &ButtonState::Inactive, &t, &vec![0; 16], 1_000).unwrap();
    let ri = room_index(&state, &id);
    assert!(state.games[ri].1.status == GameStatus::InProgress);
    let r = poll_game(&mut state, &id, &alice, 1_000 + 120_000_000_000).unwrap();
    assert!(r.status);
    let r = poll_game(&mut state, &id, &alice, 1_000 + 121_000_000_000).unwrap();
    assert!(!r.status);
    assert_eq!(r.time, 121_000_000_000);
    assert!(state.games[ri].1.status == GameStatus::InLobby);
}

#[test]
fn poll_gives_up_when_score_cannot_cover() {
    let (mut state, id, alice, bob) = setup();
    eval_guess(&mut state, &id, &alice, &s("goat"), 1).unwrap();
    eval_guess(&mut state, &id, &bob, &s("goat"), 1).unwrap();
    let ri = room_index(&state, &id);
    let pi = player_index(&state, ri, &alice);
    state.games[ri].1.players[pi].1.score = 1;
    assert!(matches!(poll_game(&mut state, &id, &alice, 2), Err(RequestError::Overflow)));
    assert_eq!(state.games[ri].1.players[pi].1.score, 1);
}

#[test]
fn lobby_poll_starts_a_round() {
    let (mut state, id, alice, bob) = setup();
    eval_guess(&mut state, &id, &alice, &s("goat"), 1).unwrap();
    let t = trie(&["eeee"]);
    let r = poll_lobby(&mut state, &id, &ButtonState::Active, &t, &vec![0; 16], 5).unwrap();
    assert!(!r.status);
    assert!(r.is_first);
    assert_eq!(r.player_list.len(), 2);
    assert_eq!(r.player_list[0].name, "alice");
    assert_eq!(r.player_list[0].score, 2);
    assert_eq!(r.player_list[0].unique_words, vec![s("goat")]);
    assert_eq!(r.player_list[1].name, "bob");
    let r = poll_lobby(&mut state, &id, &ButtonState::Inactive, &t, &vec![0; 16], 6).unwrap();
    assert!(r.status);
    assert!(!r.is_first);
    assert!(r.player_list[0].unique_words.is_empty());
    assert_eq!(r.player_list[0].score, 2);
    let ri = room_index(&state, &id);
    let g = &state.games[ri].1;
    assert_eq!(g.game_number, 1);
    assert_eq!(g.start_time, 6);
    assert_eq!(g.expiration_time, 6 + LIFETIME_NANOS);
    assert_eq!(g.solutions, vec![s("eeee")]);
    assert!(g.board.letters.iter().all(|row| row.iter().all(|c| *c == 'e')));
    // a round in progress is not restarted
    let r = poll_lobby(&mut state, &id, &ButtonState::Inactive, &t, &vec![1; 16], 7).unwrap();
    assert!(r.status);
    assert_eq!(state.games[ri].1.game_number, 1);
    let _ = bob;
}

#[test]
fn response_builders() {
    let (mut state, id, alice, bob) = setup();
    eval_guess(&mut state, &id, &alice, &s("goat"), 1).unwrap();
    eval_guess(&mut state, &id, &alice, &s("fish"), 1).unwrap();
    eval_guess(&mut state, &id, &bob, &s("fish"), 1).unwrap();
    let ri = room_index(&state, &id);
    let room = &state.games[ri].1;
    let pi = player_index(&state, ri, &alice);
    let player = &room.players[pi].1;
    let g = GuessResponse::from_player(player);
    assert_eq!(g.valid_guesses, vec![(s("fish"), true), (s("goat"), true)]);
    assert_eq!(g.score, 4);
    let p = GamePollResponse::from_room_and_player(&alice, room, 10);
    assert_eq!(p.valid_guesses, g.valid_guesses);
    assert_eq!(p.time, 10);
    let l = LobbyPollResponse::from_room(room);
    assert_eq!(l.player_list[0].unique_words, vec![s("fish"), s("goat")]);
    assert!(l.player_list[1].unique_words.is_empty());
}

#[test]
fn pages_and_cleanup() {
    let (mut state, id, alice, _bob) = setup();
    let t = trie(&["cats", "dogs"]);
    let page = multi_player(&mut state, &id, &alice, &t, 50).unwrap();
    assert_eq!(page.title, "BogChamp: room");
    assert_eq!(page.room_name, "room");
    assert_eq!(page.player_name, "alice");
    assert_eq!(page.n_solutions, 2);
    assert_eq!(page.rows.len(), 4);
    let ri = room_index(&state, &id);
    assert_eq!(state.games[ri].1.expiration_time, 50 + LIFETIME_NANOS);
    assert!(matches!(check_cleanup(&mut state, &id, 50), Ok(None)));
    let gone = check_cleanup(&mut state, &id, 50 + LIFETIME_NANOS).unwrap().unwrap();
    assert_eq!(gone.name, "room");
    assert!(state.games.is_empty());
    assert!(matches!(check_cleanup(&mut state, &id, 0), Err(RequestError::RoomNotFound)));
    assert!(matches!(lobby(&mut state, &id, &alice, &t), Err(RequestError::RoomNotFound)));
}

#[test]
fn malformed_board_is_refused() {
    let mut state = GameState::new();
    let id = open_room(&mut state, "bad", vec![1; 16], 0);
    let ri = room_index(&state, &id);
    state.games[ri].1.board = BoggleBoard { letters: vec![vec!['a'; 3]; 4] };
    let p = insert_player(&mut state, &id, s("x")).unwrap();
    let t = trie(&["aaaa"]);
    assert!(matches!(lobby(&mut state, &id, &p, &t), Err(RequestError::MalformedBoard)));
}

#[test]
fn forgetting_a_new_session_restores_the_sessions() {
    let mut state = GameState::new();
    let a = open_room(&mut state, "a", draw(["cats", "dogs", "bird", "fish"]), 1);
    let keys_before: Vec<String> = state.games.iter().map(|(k, _)| k.clone()).collect();
    let b = open_room(&mut state, "b", draw(["abcd", "efgh", "ijkl", "mnop"]), 2);
    assert_eq!(state.games.len(), 2);
    state.forget(b);
    let keys_after: Vec<String> = state.games.iter().map(|(k, _)| k.clone()).collect();
    assert_eq!(keys_after, keys_before);
    assert_eq!(state.games[0].0, a);
    assert_eq!(state.games[0].1.name, "a");
}

#[test]
fn guesses_keep_the_found_lists_in_agreement() {
    let (mut state, id, alice, bob) = setup();
    let carol = insert_player(&mut state, &id, s("carol")).unwrap();
    for (who, word) in [(&alice, "goat"), (&bob, "goat"), (&carol, "goat"), (&bob, "fish"), (&bob, "fish"), (&alice, "fish"), (&carol, "dogs")] {
        eval_guess(&mut state, &id, who, &s(word), 1).unwrap();
    }
    let room = &state.games[room_index(&state, &id)].1;
    assert_eq!(room.found_once, vec![s("goat"), s("fish"), s("dogs")]);
    assert_eq!(room.found_twice, vec![s("goat"), s("fish")]);
    for (_, p) in &room.players {
        let words: Vec<&String> = p.valid_guesses.iter().map(|g| &g.word).collect();
        for (a, w) in words.iter().enumerate() {
            assert!(room.found_once.contains(w));
            assert!(!words[a + 1..].contains(w));
        }
    }
    let once: Vec<(usize, &String)> = room
        .players
        .iter()
        .enumerate()
        .flat_map(|(i, (_, p))| p.valid_guesses.iter().filter(|g| g.found == Found::Once).map(move |g| (i, &g.word)))
        .collect();
    assert_eq!(once.len(), 3);
    for (i, w) in &once {
        assert!(once.iter().all(|(j, v)| j == i || v != w));
    }
}
