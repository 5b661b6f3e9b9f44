use lwt::entity::{Cmd, WordPair};
use lwt::trainer::{Effect, Inputs, Score, Trainer};

fn inputs(word: &str, translated: &str, answer: &str) -> Inputs {
    Inputs {
        word: word.to_string(),
        translated: translated.to_string(),
        answer: answer.to_string(),
    }
}

fn none() -> Inputs {
    inputs("", "", "")
}

fn pair(word: &str, translated: &str, id: u128) -> WordPair {
    let mut p = WordPair::new(word, translated);
    p.id = id;
    p
}

#[test]
fn new_trainer_enables_start_only_with_words() {
    let t = Trainer::new(vec![]);
    assert!(!t.start_enabled && !t.answer_enabled && !t.hint_enabled);
    let t = Trainer::new(vec![pair("a", "b", 1)]);
    assert!(t.start_enabled && !t.answer_enabled && !t.hint_enabled);
    assert_eq!(t.data.len(), 0);
}

#[test]
fn add_takes_words_longer_than_one_byte() {
    let mut t = Trainer::new(vec![]);
    let e = t.step(Cmd::Add, &inputs("cat", "Katze", ""));
    assert_eq!(t.store.len(), 1);
    let p = &t.store[0];
    assert_eq!((p.word.as_str(), p.translated.as_str()), ("cat", "Katze"));
    assert_eq!(
        e,
        vec![
            Effect::ShowTotal(1),
            Effect::AddWordButton("cat".to_string(), p.id),
            Effect::SaveStore,
            Effect::ClearWordInputs,
            Effect::FocusWord,
            Effect::EnableStart(true),
        ]
    );
    // one byte is too short, one non-ASCII character is not
    assert!(t.step(Cmd::Add, &inputs("a", "Katze", "")).is_empty());
    assert!(t.step(Cmd::Add, &inputs("cat", "", "")).is_empty());
    assert_eq!(t.store.len(), 1);
    t.step(Cmd::Add, &inputs("я", "ja", ""));
    assert_eq!(t.store.len(), 2);
}

#[test]
fn delete_removes_the_pairs_with_the_id() {
    let mut t = Trainer::new(vec![pair("a1", "b1", 1), pair("a2", "b2", 2), pair("a3", "b3", 1)]);
    t.step(Cmd::InitTest, &none());
    let e = t.step(Cmd::Del(1), &none());
    assert_eq!(t.store.len(), 1);
    assert_eq!(t.store[0].id, 2);
    assert_eq!(t.data.len(), 3);
    assert_eq!(
        e,
        vec![Effect::SaveStore, Effect::ShowTotal(1), Effect::RedrawWordList, Effect::ShowWordCount(3, 1)]
    );
    t.step(Cmd::Del(1), &none());
    assert_eq!(t.store.len(), 1);
}

#[test]
fn add_then_delete_restores_the_store() {
    let mut t = Trainer::new(vec![pair("a1", "b1", 1)]);
    t.step(Cmd::Add, &inputs("new", "neu", ""));
    let id = t.store[1].id;
    t.step(Cmd::Del(id), &none());
    assert_eq!(t.store.len(), 1);
    assert_eq!(t.store[0].id, 1);
}

#[test]
fn init_test_on_empty_store_changes_no_button() {
    let mut t = Trainer::new(vec![]);
    let e = t.step(Cmd::InitTest, &none());
    assert_eq!(e, vec![Effect::ShowHintCount(0), Effect::ShowFailCount(0), Effect::ShowWordCount(0, 0)]);
    assert!(!t.answer_enabled && !t.hint_enabled && !t.start_enabled);
}

#[test]
fn a_whole_test() {
    let mut t = Trainer::new(vec![pair("cat", "Katze", 1), pair("dog", "Hund", 2)]);
    let e = t.step(Cmd::InitTest, &none());
    assert_eq!(e.last(), Some(&Effect::SendTest));
    assert!(!t.start_enabled && t.answer_enabled && t.hint_enabled);
    assert_eq!(t.data.len(), 2);

    let e = t.step(Cmd::Test, &none());
    let asked = t.data[t.ra].clone();
    assert_eq!(
        e,
        vec![Effect::ClearHint, Effect::ShowQuestion(asked.translated.clone()), Effect::FocusAnswer]
    );

    let e = t.step(Cmd::Hint, &none());
    assert_eq!(e, vec![Effect::ShowHint(asked.word.clone()), Effect::ShowHintCount(1), Effect::FocusAnswer]);

    let e = t.step(Cmd::Answer, &inputs("", "", "wrong"));
    assert_eq!(t.fail_count, 1);
    assert_eq!(t.data.len(), 2);
    assert_eq!(e[0], Effect::ShowFailCount(1));
    assert_eq!(e[2], Effect::ShowScore(Score::Wrong));

    let e = t.step(Cmd::Answer, &inputs("", "", &asked.word));
    assert_eq!(t.data.len(), 1);
    assert_eq!(
        e,
        vec![
            Effect::ClearAnswer,
            Effect::ShowScore(Score::Good),
            Effect::ShowWordCount(1, 2),
            Effect::FocusAnswer,
            Effect::SendTest
        ]
    );

    t.step(Cmd::Test, &none());
    let word = t.data[t.ra].word.clone();
    t.step(Cmd::Answer, &inputs("", "", &word));
    assert_eq!(t.data.len(), 0);
    let e = t.step(Cmd::Test, &none());
    assert_eq!(
        e,
        vec![
            Effect::ClearHint,
            Effect::NoWordsLeft,
            Effect::EnableAnswer(false),
            Effect::EnableHint(false),
            Effect::EnableStart(true),
            Effect::ShowScore(Score::Blank),
            Effect::FocusStart
        ]
    );
    assert!(t.start_enabled && !t.answer_enabled && !t.hint_enabled);
    assert_eq!(t.store.len(), 2);
}

#[test]
fn takes_refuses_hint_and_answer_without_a_question() {
    let t = Trainer::new(vec![pair("cat", "Katze", 1)]);
    assert!(!t.takes(Cmd::Hint, &none()));
    assert!(!t.takes(Cmd::Answer, &none()));
    assert!(t.takes(Cmd::Test, &none()));
    assert!(t.takes(Cmd::InitTest, &none()));
}

#[test]
fn takes_refuses_counts_at_their_limit() {
    let mut t = Trainer::new(vec![pair("cat", "Katze", 1)]);
    t.step(Cmd::InitTest, &none());
    t.hint_count = i32::MAX;
    t.fail_count = i32::MAX;
    assert!(!t.takes(Cmd::Hint, &none()));
    assert!(!t.takes(Cmd::Answer, &inputs("", "", "dog")));
    assert!(t.takes(Cmd::Answer, &inputs("", "", "cat")));
}
