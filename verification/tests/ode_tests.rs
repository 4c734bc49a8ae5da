use bogchamp::ode_check::{
    check_word_step, entry_step, lemma_step, load_credentials, CheckEvent, CheckStep, IsValid, Reason,
};

fn s(x: &str) -> String {
    x.to_string()
}

#[test]
fn credentials_come_from_the_first_two_lines() {
    assert!(load_credentials(None).is_none());
    assert!(load_credentials(Some(vec![Some(s("id"))])).is_none());
    assert!(load_credentials(Some(vec![None, Some(s("id")), Some(s("key"))])).is_none());
    let c = load_credentials(Some(vec![Some(s("id")), Some(s("key")), Some(s("more"))])).unwrap();
    assert_eq!(c, [s("id"), s("key")]);
}

#[test]
fn no_credentials_means_unsure() {
    let r = check_word_step(CheckStep::LoadCredentials { word: s("egg") }, CheckEvent::Credentials(None));
    assert!(matches!(r, CheckStep::Done(IsValid::Unsure)));
}

#[test]
fn entry_without_error_is_valid() {
    let r = check_word_step(
        CheckStep::LoadCredentials { word: s("egg") },
        CheckEvent::Credentials(Some([s("id"), s("key")])),
    );
    let (word, id, key) = match r {
        CheckStep::FetchEntry { word, app_id, app_key } => (word, app_id, app_key),
        _ => panic!("expected a fetch"),
    };
    assert_eq!((word.as_str(), id.as_str(), key.as_str()), ("egg", "id", "key"));
    let r = check_word_step(
        CheckStep::FetchEntry { word, app_id: id, app_key: key },
        CheckEvent::EntryFetched(Some(s(r#"{"results": []}"#))),
    );
    assert!(matches!(r, CheckStep::Done(IsValid::Valid)));
}

#[test]
fn entry_with_error_leads_to_the_lemma() {
    let step = CheckStep::FetchEntry { word: s("eggs"), app_id: s("i"), app_key: s("k") };
    let r = check_word_step(step, CheckEvent::EntryFetched(Some(s(r#"{"error": "No entry"}"#))));
    assert!(matches!(r, CheckStep::FetchLemma { .. }));
    let step = CheckStep::FetchEntry { word: s("eggs"), app_id: s("i"), app_key: s("k") };
    let r = check_word_step(step, CheckEvent::EntryFetched(Some(s("not json"))));
    assert!(matches!(r, CheckStep::FetchLemma { .. }));
    let step = CheckStep::FetchEntry { word: s("eggs"), app_id: s("i"), app_key: s("k") };
    let r = check_word_step(step, CheckEvent::EntryFetched(None));
    assert!(matches!(r, CheckStep::Done(IsValid::Invalid { reason: Reason::NotInDict })));
}

#[test]
fn lemma_parent_restarts_the_check() {
    let reply = r#"{"results":[{"lexicalEntries":[{"inflectionOf":[{"id":"egg","text":"egg"}]}]}]}"#;
    let step = CheckStep::FetchLemma { word: s("eggs"), app_id: s("i"), app_key: s("k") };
    let r = check_word_step(step, CheckEvent::LemmaFetched(Some(s(reply))));
    match r {
        CheckStep::LoadCredentials { word } => assert_eq!(word, "egg"),
        _ => panic!("expected a new check"),
    }
    let step = CheckStep::FetchLemma { word: s("eggs"), app_id: s("i"), app_key: s("k") };
    let r = check_word_step(step, CheckEvent::LemmaFetched(Some(s(r#"{"results":[]}"#))));
    assert!(matches!(r, CheckStep::Done(IsValid::Invalid { reason: Reason::NotInDict })));
}

#[test]
fn unrelated_event_keeps_the_step() {
    let r = check_word_step(CheckStep::LoadCredentials { word: s("egg") }, CheckEvent::EntryFetched(None));
    assert!(matches!(r, CheckStep::LoadCredentials { .. }));
}

#[test]
fn entry_step_decides_on_the_error_flag() {
    assert!(matches!(entry_step(s("egg"), s("i"), s("k"), true), CheckStep::Done(IsValid::Valid)));
    match entry_step(s("eggs"), s("i"), s("k"), false) {
        CheckStep::FetchLemma { word, app_id, app_key } => {
            assert_eq!((word.as_str(), app_id.as_str(), app_key.as_str()), ("eggs", "i", "k"))
        }
        _ => panic!("expected a lemma fetch"),
    }
}

#[test]
fn lemma_step_follows_the_parent() {
    match lemma_step(Some(s("egg"))) {
        CheckStep::LoadCredentials { word } => assert_eq!(word, "egg"),
        _ => panic!("expected a new check"),
    }
    assert!(matches!(lemma_step(None), CheckStep::Done(IsValid::Invalid { reason: Reason::NotInDict })));
}
