# bogchamp

BogChamp is a word game played on a 4x4 board of letters, alone or in
rooms with friends, served as a web application.

The crate has two parts.

- `src/` is the library, written in Verus and verified: the dictionary trie
  (`trie`), the board and its solver (`board`), the rules of sessions and
  players (`game_state`), the answers to polls and guesses (`responses`),
  the request handling as plain functions from state and request to new
  state and answer (`web_server`), the layout of a solution list
  (`layout`), and the decisions of a lookup in an online dictionary
  (`ode_check`). `entries` and `text` hold the keyed lists and string
  helpers they share.
- `app/` is the web server around it: routes, templates, the clock, the
  random letter draw (by floating-point letter frequencies), the word-list
  file, JSON replies and the requests to the dictionary service.

Times in the library are nanoseconds since the server started; the server
passes the current time into each call.
