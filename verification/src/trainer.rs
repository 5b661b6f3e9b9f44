//! The decisions of the trainer's main loop: from its state and the command that
//! the window sent, the next state and what the window has to show.
use vstd::prelude::*;

use crate::entity::{duplicate_pairs, is_random_uuid, Cmd, WordPair};
use crate::functions::dice;
use crate::text::{byte_len, longer_than_one_byte};

verus! {

/// The text of the trainer's input fields when a command comes in.
pub struct Inputs {
    /// The word being added.
    pub word: String,
    /// Its translation.
    pub translated: String,
    /// The answer typed during a test.
    pub answer: String,
}

/// The verdict shown on an answer.
#[derive(Copy, Clone, Debug, PartialEq, Eq)]
pub enum Score {
    /// No verdict shown.
    Blank,
    /// The answer was the asked word.
    Good,
    /// The answer was not the asked word.
    Wrong,
}

/// What the window has to do after a command, in this order.
#[derive(Clone, Debug, PartialEq, Eq)]
pub enum Effect {
    /// Show the number of stored pairs.
    ShowTotal(usize),
    /// Show how many pairs are left in the test, out of how many are stored.
    ShowWordCount(usize, usize),
    /// Show how many hints were used.
    ShowHintCount(i32),
    /// Show how many answers were wrong.
    ShowFailCount(i32),
    /// Ask for the word of this translation.
    ShowQuestion(String),
    /// Say that no words are left in the test.
    NoWordsLeft,
    /// Show this word as a hint.
    ShowHint(String),
    /// Clear the hint.
    ClearHint,
    /// Show the verdict.
    ShowScore(Score),
    /// Enable (or disable) the button that starts a test.
    EnableStart(bool),
    /// Enable (or disable) the button that sends an answer.
    EnableAnswer(bool),
    /// Enable (or disable) the button that asks for a hint.
    EnableHint(bool),
    /// Add a button for this word to the word list; it deletes the pairs with this id.
    AddWordButton(String, u128),
    /// Redraw the word list.
    RedrawWordList,
    /// Write the stored pairs to the store file.
    SaveStore,
    /// Empty the word and translation fields.
    ClearWordInputs,
    /// Put the focus on the word field.
    FocusWord,
    /// Empty the answer field.
    ClearAnswer,
    /// Put the focus on the answer field.
    FocusAnswer,
    /// Put the focus on the start button.
    FocusStart,
    /// Send the `Test` command, which asks the next word.
    SendTest,
}

/// The state of the trainer.
pub struct Trainer {
    /// All stored pairs.
    pub store: Vec<WordPair>,
    /// The pairs not yet answered in the current test.
    pub data: Vec<WordPair>,
    /// The index in `data` of the pair being asked.
    pub ra: usize,
    /// Hints used in the current test.
    pub hint_count: i32,
    /// Wrong answers in the current test.
    pub fail_count: i32,
    /// Whether the start button is enabled.
    pub start_enabled: bool,
    /// Whether the answer button is enabled.
    pub answer_enabled: bool,
    /// Whether the hint button is enabled.
    pub hint_enabled: bool,
}

/// `pairs` without the pairs whose id is `id`, the others kept in order.
pub open spec fn without_id(pairs: Seq<WordPair>, id: u128) -> Seq<WordPair>
    decreases pairs.len(),
{
    if pairs.len() == 0 {
        Seq::empty()
    } else {
        let rest = without_id(pairs.drop_last(), id);
        if pairs.last().id == id {
            rest
        } else {
            rest.push(pairs.last())
        }
    }
}

/// Whether a new word pair is taken: both its word and its translation are longer
/// than one byte.
pub open spec fn accepts_pair(word: Seq<char>, translated: Seq<char>) -> bool {
    byte_len(word) > 1 && byte_len(translated) > 1
}

/// The fields other than the store, the test pairs and the asked index are kept.
pub open spec fn same_counts_and_buttons(pre: Trainer, post: Trainer) -> bool {
    &&& post.hint_count == pre.hint_count
    &&& post.fail_count == pre.fail_count
    &&& post.start_enabled == pre.start_enabled
    &&& post.answer_enabled == pre.answer_enabled
    &&& post.hint_enabled == pre.hint_enabled
}

/// `Del(id)`: the pairs with that id leave the store (not the test), which is saved.
pub open spec fn after_del(pre: Trainer, post: Trainer, id: u128, effects: Seq<Effect>) -> bool {
    &&& post.store@ =~= without_id(pre.store@, id)
    &&& post.data@ =~= pre.data@
    &&& post.ra == pre.ra
    &&& same_counts_and_buttons(pre, post)
    &&& effects =~= seq![
        Effect::SaveStore,
        Effect::ShowTotal(post.store.len()),
        Effect::RedrawWordList,
        Effect::ShowWordCount(post.data.len(), post.store.len()),
    ]
}

/// `InitTest`: the counts restart and the test takes all stored pairs; when there
/// are some, one is picked, the test buttons are enabled and the next word asked.
pub open spec fn after_init_test(pre: Trainer, post: Trainer, effects: Seq<Effect>) -> bool {
    let counts = seq![
        Effect::ShowHintCount(0),
        Effect::ShowFailCount(0),
        Effect::ShowWordCount(pre.store.len(), pre.store.len()),
    ];
    &&& post.store@ =~= pre.store@
    &&& post.data@ =~= pre.store@
    &&& post.hint_count == 0
    &&& post.fail_count == 0
    &&& if pre.store@.len() == 0 {
        &&& post.ra == pre.ra
        &&& post.start_enabled == pre.start_enabled
        &&& post.answer_enabled == pre.answer_enabled
        &&& post.hint_enabled == pre.hint_enabled
        &&& effects =~= counts
    } else {
        &&& post.ra < post.data@.len()
        &&& !post.start_enabled
        &&& post.answer_enabled
        &&& post.hint_enabled
        &&& effects =~= counts + seq![
            Effect::EnableStart(false),
            Effect::EnableAnswer(true),
            Effect::EnableHint(true),
            Effect::SendTest,
        ]
    }
}

/// `Add`: a pair whose word and translation are longer than one byte is appended
/// to the store with a fresh id, and saved; anything else changes nothing.
pub open spec fn after_add(pre: Trainer, post: Trainer, inputs: &Inputs, effects: Seq<Effect>) -> bool {
    &&& post.data@ =~= pre.data@
    &&& post.ra == pre.ra
    &&& post.hint_count == pre.hint_count
    &&& post.fail_count == pre.fail_count
    &&& post.answer_enabled == pre.answer_enabled
    &&& post.hint_enabled == pre.hint_enabled
    &&& if accepts_pair(inputs.word@, inputs.translated@) {
        &&& post.store@ =~= pre.store@.push(post.store@.last())
        &&& post.store@.last().word@ == inputs.word@
        &&& post.store@.last().translated@ == inputs.translated@
        &&& is_random_uuid(post.store@.last().id)
        &&& forall|i: int| 0 <= i < pre.store@.len() ==> (#[trigger] pre.store@[i]).id != post.store@.last().id
        &&& post.start_enabled
        &&& effects =~= seq![
            Effect::ShowTotal(post.store.len()),
            Effect::AddWordButton(post.store@.last().word, post.store@.last().id),
            Effect::SaveStore,
            Effect::ClearWordInputs,
            Effect::FocusWord,
            Effect::EnableStart(true),
        ]
    } else {
        &&& post.store@ =~= pre.store@
        &&& post.start_enabled == pre.start_enabled
        &&& effects.len() == 0
    }
}

/// `Test`: the next pair is picked and its translation asked; when no pair is
/// left, the test ends.
pub open spec fn after_test(pre: Trainer, post: Trainer, effects: Seq<Effect>) -> bool {
    &&& post.store@ =~= pre.store@
    &&& post.data@ =~= pre.data@
    &&& post.hint_count == pre.hint_count
    &&& post.fail_count == pre.fail_count
    &&& if pre.data@.len() == 0 {
        &&& post.ra == pre.ra
        &&& post.start_enabled
        &&& !post.answer_enabled
        &&& !post.hint_enabled
        &&& effects =~= seq![
            Effect::ClearHint,
            Effect::NoWordsLeft,
            Effect::EnableAnswer(false),
            Effect::EnableHint(false),
            Effect::EnableStart(true),
            Effect::ShowScore(Score::Blank),
            Effect::FocusStart,
        ]
    } else {
        &&& post.ra < post.data@.len()
        &&& post.start_enabled == pre.start_enabled
        &&& post.answer_enabled == pre.answer_enabled
        &&& post.hint_enabled == pre.hint_enabled
        &&& effects =~= seq![
            Effect::ClearHint,
            Effect::ShowQuestion(post.data@[post.ra as int].translated),
            Effect::FocusAnswer,
        ]
    }
}

/// `Hint`: the asked word is shown and counted.
pub open spec fn after_hint(pre: Trainer, post: Trainer, effects: Seq<Effect>) -> bool {
    &&& post.store@ =~= pre.store@
    &&& post.data@ =~= pre.data@
    &&& post.ra == pre.ra
    &&& post.hint_count == pre.hint_count + 1
    &&& post.fail_count == pre.fail_count
    &&& post.start_enabled == pre.start_enabled
    &&& post.answer_enabled == pre.answer_enabled
    &&& post.hint_enabled == pre.hint_enabled
    &&& effects =~= seq![
        Effect::ShowHint(pre.data@[pre.ra as int].word),
        Effect::ShowHintCount(post.hint_count),
        Effect::FocusAnswer,
    ]
}

/// `Answer`: the asked pair leaves the test when the answer is its word; any other
/// answer is counted as wrong. Then the next word is asked.
pub open spec fn after_answer(pre: Trainer, post: Trainer, inputs: &Inputs, effects: Seq<Effect>) -> bool {
    let asked = pre.data@[pre.ra as int];
    &&& post.store@ =~= pre.store@
    &&& post.ra == pre.ra
    &&& post.hint_count == pre.hint_count
    &&& post.start_enabled == pre.start_enabled
    &&& post.answer_enabled == pre.answer_enabled
    &&& post.hint_enabled == pre.hint_enabled
    &&& if inputs.answer@ == asked.word@ {
        &&& post.data@ =~= pre.data@.remove(pre.ra as int)
        &&& post.fail_count == pre.fail_count
        &&& effects =~= seq![
            Effect::ClearAnswer,
            Effect::ShowScore(Score::Good),
            Effect::ShowWordCount(post.data.len(), post.store.len()),
            Effect::FocusAnswer,
            Effect::SendTest,
        ]
    } else {
        &&& post.data@ =~= pre.data@
        &&& post.fail_count == pre.fail_count + 1
        &&& effects =~= seq![
            Effect::ShowFailCount(post.fail_count),
            Effect::ClearAnswer,
            Effect::ShowScore(Score::Wrong),
            Effect::ShowWordCount(post.data.len(), post.store.len()),
            Effect::FocusAnswer,
            Effect::SendTest,
        ]
    }
}

/// `post` and `effects` are what `step` makes of `pre` and `cmd`.
pub open spec fn stepped(pre: Trainer, post: Trainer, cmd: Cmd, inputs: &Inputs, effects: Seq<Effect>) -> bool {
    &&& cmd matches Cmd::Del(id) ==> after_del(pre, post, id, effects)
    &&& cmd is InitTest ==> after_init_test(pre, post, effects)
    &&& cmd is Add ==> after_add(pre, post, inputs, effects)
    &&& cmd is Test ==> after_test(pre, post, effects)
    &&& cmd is Hint ==> after_hint(pre, post, effects)
    &&& cmd is Answer ==> after_answer(pre, post, inputs, effects)
}

/// No two of `pairs` carry the same id.
pub open spec fn distinct_ids(pairs: Seq<WordPair>) -> bool {
    forall|i: int, j: int|
        0 <= i < pairs.len() && 0 <= j < pairs.len() && i != j ==> (#[trigger] pairs[i]).id
            != (#[trigger] pairs[j]).id
}

impl Trainer {
    /// The trainer at start-up, over the stored pairs.
    pub fn new(store: Vec<WordPair>) -> (t: Trainer)
        ensures
            t.store@ == store@,
            t.data@.len() == 0,
            t.ra == 0,
            t.hint_count == 0,
            t.fail_count == 0,
            t.start_enabled == (store@.len() > 0),
            !t.answer_enabled,
            !t.hint_enabled,
    {
        let start_enabled = store.len() > 0;
        Trainer {
            store,
            data: Vec::new(),
            ra: 0,
            hint_count: 0,
            fail_count: 0,
            start_enabled,
            answer_enabled: false,
            hint_enabled: false,
        }
    }

    /// Whether `step` can take `cmd` in this state. A hint or an answer needs a
    /// pair being asked, and a count that can still grow.
    pub open spec fn can_take(&self, cmd: Cmd, inputs: &Inputs) -> bool {
        match cmd {
            Cmd::Hint => self.ra < self.data@.len() && self.hint_count < i32::MAX,
            Cmd::Answer => self.ra < self.data@.len() && (inputs.answer@
                != self.data@[self.ra as int].word@ ==> self.fail_count < i32::MAX),
            _ => true,
        }
    }

    /// Decides `can_take`.
    pub fn takes(&self, cmd: Cmd, inputs: &Inputs) -> (r: bool)
        ensures
            r == self.can_take(cmd, inputs),
    {
        match cmd {
            Cmd::Hint => self.ra < self.data.len() && self.hint_count < i32::MAX,
            Cmd::Answer => self.ra < self.data.len() && (inputs.answer == self.data[self.ra].word
                || self.fail_count < i32::MAX),
            _ => true,
        }
    }

    /// Handles one command from the window.
    pub fn step(&mut self, cmd: Cmd, inputs: &Inputs) -> (effects: Vec<Effect>)
        requires
            old(self).can_take(cmd, inputs),
        ensures
            cmd matches Cmd::Del(id) ==> after_del(*old(self), *final(self), id, effects@),
            cmd is InitTest ==> after_init_test(*old(self), *final(self), effects@),
            cmd is Add ==> after_add(*old(self), *final(self), inputs, effects@),
            cmd is Test ==> after_test(*old(self), *final(self), effects@),
            cmd is Hint ==> after_hint(*old(self), *final(self), effects@),
            cmd is Answer ==> after_answer(*old(self), *final(self), inputs, effects@),
            stepped(*old(self), *final(self), cmd, inputs, effects@),
    {
        let mut effects: Vec<Effect> = Vec::new();
        match cmd {
            Cmd::Del(id) => {
                let mut kept: Vec<WordPair> = Vec::new();
                let mut i: usize = 0;
                while i < self.store.len()
                    invariant
                        i <= self.store@.len(),
                        *self == *old(self),
                        kept@ == without_id(self.store@.take(i as int), id),
                    decreases self.store@.len() - i,
                {
                    let ghost prefix = self.store@.take(i + 1);
                    assert(prefix.drop_last() =~= self.store@.take(i as int));
                    assert(prefix.last() == self.store@[i as int]);
                    if self.store[i].id != id {
                        kept.push(self.store[i].duplicate());
                    }
                    assert(kept@ == without_id(prefix, id));
                    i = i + 1;
                }
                assert(self.store@.take(i as int) =~= self.store@);
                self.store = kept;
                effects.push(Effect::SaveStore);
                effects.push(Effect::ShowTotal(self.store.len()));
                effects.push(Effect::RedrawWordList);
                effects.push(Effect::ShowWordCount(self.data.len(), self.store.len()));
            },
            Cmd::InitTest => {
                self.hint_count = 0;
                self.fail_count = 0;
                effects.push(Effect::ShowHintCount(self.hint_count));
                effects.push(Effect::ShowFailCount(self.fail_count));
                self.data = duplicate_pairs(&self.store);
                effects.push(Effect::ShowWordCount(self.data.len(), self.store.len()));
                if let Some(v) = dice(0, self.data.len()) {
                    self.ra = v;
                    self.start_enabled = false;
                    effects.push(Effect::EnableStart(false));
                    self.answer_enabled = true;
                    effects.push(Effect::EnableAnswer(true));
                    self.hint_enabled = true;
                    effects.push(Effect::EnableHint(true));
                    effects.push(Effect::SendTest);
                }
            },
            Cmd::Add => {
                if longer_than_one_byte(inputs.word.as_str()) && longer_than_one_byte(
                    inputs.translated.as_str(),
                ) {
                    let new_wp = WordPair::new_among(
                        inputs.word.as_str(),
                        inputs.translated.as_str(),
                        &self.store,
                    );
                    self.store.push(new_wp.duplicate());
                    assert(self.store@.last() == new_wp);
                    assert(self.store@ =~= old(self).store@.push(self.store@.last()));
                    effects.push(Effect::ShowTotal(self.store.len()));
                    effects.push(Effect::AddWordButton(new_wp.word, new_wp.id));
                    effects.push(Effect::SaveStore);
                    effects.push(Effect::ClearWordInputs);
                    effects.push(Effect::FocusWord);
                    self.start_enabled = true;
                    effects.push(Effect::EnableStart(true));
                }
            },
            Cmd::Test => {
                effects.push(Effect::ClearHint);
                if let Some(v) = dice(0, self.data.len()) {
                    self.ra = v;
                    let current_pair = &self.data[self.ra];
                    effects.push(Effect::ShowQuestion(current_pair.translated.clone()));
                    effects.push(Effect::FocusAnswer);
                } else {
                    effects.push(Effect::NoWordsLeft);
                    self.answer_enabled = false;
                    effects.push(Effect::EnableAnswer(false));
                    self.hint_enabled = false;
                    effects.push(Effect::EnableHint(false));
                    self.start_enabled = true;
                    effects.push(Effect::EnableStart(true));
                    effects.push(Effect::ShowScore(Score::Blank));
                    effects.push(Effect::FocusStart);
                }
            },
            Cmd::Hint => {
                self.hint_count = self.hint_count + 1;
                let current_pair = &self.data[self.ra];
                effects.push(Effect::ShowHint(current_pair.word.clone()));
                effects.push(Effect::ShowHintCount(self.hint_count));
                effects.push(Effect::FocusAnswer);
            },
            Cmd::Answer => {
                let correct = inputs.answer == self.data[self.ra].word;
                if correct {
                    self.data.remove(self.ra);
                    effects.push(Effect::ClearAnswer);
                    effects.push(Effect::ShowScore(Score::Good));
                } else {
                    self.fail_count = self.fail_count + 1;
                    effects.push(Effect::ShowFailCount(self.fail_count));
                    effects.push(Effect::ClearAnswer);
                    effects.push(Effect::ShowScore(Score::Wrong));
                }
                effects.push(Effect::ShowWordCount(self.data.len(), self.store.len()));
                effects.push(Effect::FocusAnswer);
                effects.push(Effect::SendTest);
            },
        }
        effects
    }
}

/// Deleting by id leaves no pair with that id, keeps every pair with another id,
/// and deleting again changes nothing.
pub proof fn lemma_delete_by_id(pairs: Seq<WordPair>, id: u128)
    ensures
        forall|i: int| 0 <= i < without_id(pairs, id).len() ==> (#[trigger] without_id(pairs, id)[i]).id != id,
        forall|i: int| 0 <= i < without_id(pairs, id).len() ==> pairs.contains(#[trigger] without_id(pairs, id)[i]),
        forall|i: int| 0 <= i < pairs.len() && (#[trigger] pairs[i]).id != id ==> without_id(pairs, id).contains(pairs[i]),
        without_id(without_id(pairs, id), id) == without_id(pairs, id),
    decreases pairs.len(),
{
    if pairs.len() > 0 {
        let init = pairs.drop_last();
        lemma_delete_by_id(init, id);
        let rest = without_id(init, id);
        let r = without_id(pairs, id);
        assert forall|i: int| 0 <= i < r.len() implies pairs.contains(#[trigger] r[i]) by {
            if i < rest.len() {
                let k = choose|k: int| 0 <= k < init.len() && init[k] == rest[i];
                assert(pairs[k] == init[k]);
            } else {
                assert(pairs[pairs.len() - 1] == r[i]);
            }
        }
        assert forall|i: int| 0 <= i < pairs.len() && (#[trigger] pairs[i]).id != id implies r.contains(pairs[i]) by {
            if i < pairs.len() - 1 {
                assert(init[i] == pairs[i]);
                let k = choose|k: int| 0 <= k < rest.len() && rest[k] == init[i];
                assert(r[k] == rest[k]);
            } else {
                assert(r[r.len() - 1] == pairs[i]);
            }
        }
        if pairs.last().id != id {
            assert(r.drop_last() =~= rest);
        }
    } else {
        assert(without_id(pairs, id) =~= pairs);
    }
}

/// Deleting a pair's id right after adding it gives back the store as it was,
/// when no stored pair had that id before.
pub proof fn lemma_add_then_delete(store: Seq<WordPair>, pair: WordPair)
    requires
        forall|i: int| 0 <= i < store.len() ==> (#[trigger] store[i]).id != pair.id,
    ensures
        without_id(store.push(pair), pair.id) == store,
{
    assert(store.push(pair).drop_last() =~= store);
    lemma_without_absent_id(store, pair.id);
}

/// Deleting an id that no pair carries changes nothing.
pub proof fn lemma_without_absent_id(pairs: Seq<WordPair>, id: u128)
    requires
        forall|i: int| 0 <= i < pairs.len() ==> (#[trigger] pairs[i]).id != id,
    ensures
        without_id(pairs, id) == pairs,
    decreases pairs.len(),
{
    if pairs.len() > 0 {
        lemma_without_absent_id(pairs.drop_last(), id);
        assert(pairs.drop_last().push(pairs.last()) =~= pairs);
    } else {
        assert(without_id(pairs, id) =~= pairs);
    }
}

/// After a test step, an enabled hint or answer button always points at a pair of
/// the test: `Hint` and `Answer` can then be taken (while the counts have room).
pub proof fn lemma_test_leaves_a_question(pre: Trainer, post: Trainer, effects: Seq<Effect>, inputs: &Inputs)
    requires
        after_test(pre, post, effects) || (after_init_test(pre, post, effects) && pre.store@.len() > 0),
    ensures
        post.hint_enabled && post.hint_count < i32::MAX ==> post.can_take(Cmd::Hint, inputs),
        post.answer_enabled && post.fail_count < i32::MAX ==> post.can_take(Cmd::Answer, inputs),
{
}

/// Deleting by id from a joined list is deleting from each part and joining:
/// the kept pairs stay in their order.
pub proof fn lemma_delete_keeps_order(a: Seq<WordPair>, b: Seq<WordPair>, id: u128)
    ensures
        without_id(a + b, id) == without_id(a, id) + without_id(b, id),
    decreases b.len(),
{
    if b.len() == 0 {
        assert(a + b =~= a);
        assert(without_id(a, id) + without_id(b, id) =~= without_id(a, id));
    } else {
        lemma_delete_keeps_order(a, b.drop_last(), id);
        assert((a + b).drop_last() =~= a + b.drop_last());
        assert((a + b).last() == b.last());
        if b.last().id != id {
            assert(without_id(a, id) + without_id(b.drop_last(), id).push(b.last()) =~= (
            without_id(a, id) + without_id(b.drop_last(), id)).push(b.last()));
        }
    }
}

/// Deleting by id from a single pair drops it exactly when it carries the id.
pub proof fn lemma_delete_single(pair: WordPair, id: u128)
    ensures
        without_id(seq![pair], id) == (if pair.id == id {
            Seq::<WordPair>::empty()
        } else {
            seq![pair]
        }),
{
    let one = seq![pair];
    assert(one.drop_last() =~= Seq::<WordPair>::empty());
    assert(one.last() == pair);
    assert(without_id(one.drop_last(), id) =~= Seq::<WordPair>::empty());
    assert(Seq::<WordPair>::empty().push(pair) =~= one);
}

/// Deleting by id is filtering out the pairs with that id.
pub proof fn lemma_delete_is_filter(pairs: Seq<WordPair>, id: u128)
    ensures
        without_id(pairs, id) == pairs.filter(|p: WordPair| p.id != id),
    decreases pairs.len(),
{
    reveal_with_fuel(Seq::filter, 1);
    if pairs.len() > 0 {
        lemma_delete_is_filter(pairs.drop_last(), id);
    }
}

/// `Add` takes a pair exactly when its word and its translation each take more
/// than one byte in UTF-8 (what `str::len` counts): a space or any other
/// character is no reason to refuse it.
pub proof fn lemma_add_accepts(word: Seq<char>, translated: Seq<char>)
    ensures
        accepts_pair(word, translated) <==> (vstd::utf8::encode_utf8(word).len() > 1
            && vstd::utf8::encode_utf8(translated).len() > 1),
{
}

/// Deleting keeps the ids of the kept pairs distinct.
pub proof fn lemma_delete_keeps_ids_distinct(pairs: Seq<WordPair>, id: u128)
    requires
        distinct_ids(pairs),
    ensures
        distinct_ids(without_id(pairs, id)),
    decreases pairs.len(),
{
    if pairs.len() > 0 {
        let init = pairs.drop_last();
        assert(distinct_ids(init)) by {
            assert forall|i: int, j: int| 0 <= i < init.len() && 0 <= j < init.len() && i != j implies (#[trigger] init[i]).id != (#[trigger] init[j]).id by {
                assert(init[i] == pairs[i] && init[j] == pairs[j]);
            }
        }
        lemma_delete_keeps_ids_distinct(init, id);
        lemma_delete_by_id(init, id);
        let rest = without_id(init, id);
        let last = pairs.last();
        if last.id != id {
            let r = rest.push(last);
            assert forall|i: int| 0 <= i < rest.len() implies (#[trigger] rest[i]).id != last.id by {
                assert(init.contains(rest[i]));
                let k = choose|k: int| 0 <= k < init.len() && init[k] == rest[i];
                assert(pairs[k] == init[k]);
                assert(pairs[pairs.len() - 1] == last);
            }
            assert forall|i: int, j: int| 0 <= i < r.len() && 0 <= j < r.len() && i != j implies (#[trigger] r[i]).id != (#[trigger] r[j]).id by {
                if i < rest.len() && j < rest.len() {
                    assert(r[i] == rest[i] && r[j] == rest[j]);
                } else if i < rest.len() {
                    assert(r[i] == rest[i]);
                } else {
                    assert(r[j] == rest[j]);
                }
            }
        }
    }
}

/// Every step keeps the ids of the stored pairs distinct: `Add` gives the new pair
/// an id that no stored pair has, and `Del` only drops pairs.
pub proof fn lemma_step_keeps_ids_distinct(pre: Trainer, post: Trainer, cmd: Cmd, inputs: &Inputs, effects: Seq<Effect>)
    requires
        distinct_ids(pre.store@),
        stepped(pre, post, cmd, inputs, effects),
    ensures
        distinct_ids(post.store@),
{
    match cmd {
        Cmd::Del(id) => {
            lemma_delete_keeps_ids_distinct(pre.store@, id);
        },
        Cmd::Add => {
            if accepts_pair(inputs.word@, inputs.translated@) {
                let s = post.store@;
                let n = pre.store@.len();
                assert forall|i: int, j: int| 0 <= i < s.len() && 0 <= j < s.len() && i != j implies (#[trigger] s[i]).id != (#[trigger] s[j]).id by {
                    if i < n && j < n {
                        assert(s[i] == pre.store@[i] && s[j] == pre.store@[j]);
                    } else if i < n {
                        assert(s[i] == pre.store@[i]);
                        assert(s[j] == s.last());
                    } else {
                        assert(s[j] == pre.store@[j]);
                        assert(s[i] == s.last());
                    }
                }
            }
        },
        _ => {},
    }
}

/// Deleting the id of a pair just added gives back the store as it was before the
/// `Add`: the new id is no stored pair's, so nothing else goes.
pub proof fn lemma_add_then_delete_steps(
    s0: Trainer,
    s1: Trainer,
    s2: Trainer,
    inputs: &Inputs,
    e1: Seq<Effect>,
    e2: Seq<Effect>,
)
    requires
        after_add(s0, s1, inputs, e1),
        accepts_pair(inputs.word@, inputs.translated@),
        after_del(s1, s2, s1.store@.last().id, e2),
    ensures
        s2.store@ == s0.store@,
{
    lemma_add_then_delete(s0.store@, s1.store@.last());
}

} // verus!
