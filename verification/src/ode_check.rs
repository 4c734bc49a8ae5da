//! Checking a word against an online dictionary. The lookups themselves
//! are made by the caller; here are the credentials, the reading of the
//! replies and the decision that each reply leads to.
use vstd::prelude::*;

verus! {

/// Why a word is refused.
#[derive(Debug)]
pub enum Reason {
    NotInDict,
    Informal,
    Regional,
    PropperNoun,
}

/// The verdict on a word.
#[derive(Debug)]
pub enum IsValid {
    Valid,
    Invalid { reason: Reason },
    Unsure,
}

/// The credentials a key file holds: its first two lines, when both could
/// be read. `lines` is `None` when the file could not be opened; otherwise
/// it holds its first lines, each `None` when it could not be read.
pub open spec fn credentials_of(lines: Option<Seq<Option<String>>>) -> Option<(Seq<char>, Seq<char>)> {
    match lines {
        None => None,
        Some(ls) => if ls.len() >= 2 && ls[0] is Some && ls[1] is Some {
            Some((ls[0]->0@, ls[1]->0@))
        } else {
            None
        },
    }
}

/// The application id and key for the dictionary service, from the first
/// two lines of the key file.
pub fn load_credentials(lines: Option<Vec<Option<String>>>) -> (r: Option<[String; 2]>)
    ensures
        match credentials_of(
            match lines {
                Some(v) => Some(v@),
                None => None,
            },
        ) {
            Some((id, key)) => r matches Some(c) && c@[0]@ == id && c@[1]@ == key,
            None => r is None,
        },
{
    match lines {
        None => None,
        Some(lines) => {
            if lines.len() < 2 {
                return None;
            }
            match (&lines[0], &lines[1]) {
                (Some(app_id), Some(app_key)) => Some([app_id.clone(), app_key.clone()]),
                _ => None,
            }
        },
    }
}

/// The entry reply `text` reports no error: it parses as JSON and its
/// `error` member is missing or null.
pub uninterp spec fn reply_has_no_error(text: Seq<char>) -> bool;

/// The parent word that the lemma reply `text` names: the text at
/// `results[0].lexicalEntries[0].inflectionOf[0].text`, when the reply
/// parses as JSON and a string stands there.
pub uninterp spec fn reply_parent_word(text: Seq<char>) -> Option<Seq<char>>;

/// Parses `text` with `serde_json::from_str` and tells whether its `error`
/// member is null (`Value::is_null` of `value["error"]`). A reply that does
/// not parse counts as one with an error. The result is named, not spelled
/// out.
#[verifier::external_body]
fn entry_has_no_error(text: &str) -> (r: bool)
    ensures
        r == reply_has_no_error(text@),
{
    match serde_json::from_str::<serde_json::Value>(text) {
        Ok(value) => value["error"].is_null(),
        Err(_) => false,
    }
}

/// Parses `text` with `serde_json::from_str` and reads the string at
/// `results[0].lexicalEntries[0].inflectionOf[0].text` (`Value::as_str`).
/// A reply that does not parse has none. The result is named, not spelled
/// out.
#[verifier::external_body]
fn inflection_parent(text: &str) -> (r: Option<String>)
    ensures
        match r {
            Some(p) => reply_parent_word(text@) == Some(p@),
            None => reply_parent_word(text@) is None,
        },
{
    let value: serde_json::Value = serde_json::from_str(text).unwrap_or(serde_json::Value::Null);
    value["results"][0]["lexicalEntries"][0]["inflectionOf"][0]["text"].as_str().map(String::from)
}

/// Where a check stands: about to load the credentials for a word, about
/// to fetch its dictionary entry, about to fetch its lemma, or done.
pub enum CheckStep {
    LoadCredentials { word: String },
    FetchEntry { word: String, app_id: String, app_key: String },
    FetchLemma { word: String, app_id: String, app_key: String },
    Done(IsValid),
}

/// What the caller brings back from the work a step asks for: the
/// credentials, or the text of a reply (`None` when the request failed).
pub enum CheckEvent {
    Credentials(Option<[String; 2]>),
    EntryFetched(Option<String>),
    LemmaFetched(Option<String>),
}

/// The step after an entry reply: the word is valid when the reply reports
/// no error; otherwise its lemma is fetched next.
pub fn entry_step(word: String, app_id: String, app_key: String, no_error: bool) -> (r: CheckStep)
    ensures
        no_error ==> (r matches CheckStep::Done(v) && v is Valid),
        !no_error ==> r == (CheckStep::FetchLemma { word, app_id, app_key }),
{
    if no_error {
        CheckStep::Done(IsValid::Valid)
    } else {
        CheckStep::FetchLemma { word, app_id, app_key }
    }
}

/// The step after a lemma reply: the check starts over on the parent word
/// that the reply names; without one, the word is not in the dictionary.
pub fn lemma_step(parent: Option<String>) -> (r: CheckStep)
    ensures
        match parent {
            Some(p) => r == (CheckStep::LoadCredentials { word: p }),
            None => r matches CheckStep::Done(v) && v matches IsValid::Invalid { reason }
                && reason is NotInDict,
        },
{
    match parent {
        Some(p) => CheckStep::LoadCredentials { word: p },
        None => CheckStep::Done(IsValid::Invalid { reason: Reason::NotInDict }),
    }
}

/// The next step of a check, given what the current step brought back.
/// Without credentials the verdict is `Unsure`. An entry that reports no
/// error makes the word valid; otherwise its lemma is fetched, and when the
/// lemma names a parent word, the check starts over on that word. A failed
/// request, or a lemma without a parent, makes the word invalid: not in the
/// dictionary. An event that does not answer the step leaves it as it is.
pub fn check_word_step(step: CheckStep, event: CheckEvent) -> (r: CheckStep)
    ensures
        match (step, event) {
            (CheckStep::LoadCredentials { word }, CheckEvent::Credentials(c)) => match c {
                None => r matches CheckStep::Done(v) && v is Unsure,
                Some(c) => r matches CheckStep::FetchEntry { word: w, app_id, app_key } && w == word
                    && app_id@ == c@[0]@ && app_key@ == c@[1]@,
            },
            (CheckStep::FetchEntry { word, app_id, app_key }, CheckEvent::EntryFetched(t)) => match t {
                None => r matches CheckStep::Done(v) && v matches IsValid::Invalid { reason }
                    && reason is NotInDict,
                Some(text) => if reply_has_no_error(text@) {
                    r matches CheckStep::Done(v) && v is Valid
                } else {
                    r matches CheckStep::FetchLemma { word: w, app_id: i, app_key: k } && w == word
                        && i == app_id && k == app_key
                },
            },
            (CheckStep::FetchLemma { .. }, CheckEvent::LemmaFetched(t)) => match t {
                Some(text) if reply_parent_word(text@) is Some => r matches CheckStep::LoadCredentials {
                    word,
                } && Some(word@) == reply_parent_word(text@),
                _ => r matches CheckStep::Done(v) && v matches IsValid::Invalid { reason }
                    && reason is NotInDict,
            },
            (s, _) => r == s,
        },
{
    match (step, event) {
        (CheckStep::LoadCredentials { word }, CheckEvent::Credentials(c)) => match c {
            None => CheckStep::Done(IsValid::Unsure),
            Some(c) => CheckStep::FetchEntry {
                word,
                app_id: c[0].clone(),
                app_key: c[1].clone(),
            },
        },
        (CheckStep::FetchEntry { word, app_id, app_key }, CheckEvent::EntryFetched(t)) => match t {
            None => CheckStep::Done(IsValid::Invalid { reason: Reason::NotInDict }),
            Some(text) => entry_step(word, app_id, app_key, entry_has_no_error(text.as_str())),
        },
        (CheckStep::FetchLemma { .. }, CheckEvent::LemmaFetched(t)) => match t {
            Some(text) => lemma_step(inflection_parent(text.as_str())),
            None => CheckStep::Done(IsValid::Invalid { reason: Reason::NotInDict }),
        },
        (s, _) => s,
    }
}

} // verus!
