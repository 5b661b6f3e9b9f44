//! The word pairs the trainer keeps, and the commands its window sends.
use vstd::prelude::*;

verus! {

/// A command sent from the window to the main loop.
#[derive(Copy, Clone, Debug)]
pub enum Cmd {
    Add,
    Test,
    Answer,
    InitTest,
    Hint,
    /// Delete the word pairs that carry this id.
    Del(u128),
}

/// A word and its translation, with the id that tells pairs apart.
/// The id is a UUID held as its 128-bit value.
#[derive(Debug, Clone)]
pub struct WordPair {
    pub word: String,
    pub translated: String,
    pub id: u128,
}

/// Whether `id` carries the marks of a random (version 4, RFC 4122 variant) UUID.
pub open spec fn is_random_uuid(id: u128) -> bool {
    &&& (id >> 76u128) & 0xfu128 == 4
    &&& (id >> 62u128) & 0x3u128 == 2
}

/// A fresh random id.
/// Trusted: `uuid::Uuid::new_v4`, read back with `Uuid::as_u128`. Its source draws
/// 128 random bits and then sets the version nibble to 4 and the variant bits to
/// `10`; that is all the contract claims. Which id comes out rests on chance.
#[verifier::external_body]
fn fresh_id() -> (id: u128)
    ensures
        is_random_uuid(id),
{
    uuid::Uuid::new_v4().as_u128()
}

/// The bits that pick one of the candidates in `fresh_id_among`: the low 62 bits
/// of `k`, and its two high bits at bits 80 and 81. Neither the version nor the
/// variant bits of a UUID are touched.
pub open spec fn spread(k: u64) -> u128 {
    ((k as u128) & 0x3fff_ffff_ffff_ffffu128) | (((k as u128) >> 62u128) << 80u128)
}

/// Changing a random id by `spread(k)` keeps it a random UUID, and different `k`
/// give different ids.
proof fn lemma_spread(base: u128, k1: u64, k2: u64)
    ensures
        is_random_uuid(base) ==> is_random_uuid(base ^ spread(k1)),
        k1 != k2 ==> base ^ spread(k1) != base ^ spread(k2),
{
    assert(((base ^ (((k1 as u128) & 0x3fff_ffff_ffff_ffffu128) | (((k1 as u128) >> 62u128)
        << 80u128))) >> 76u128) & 0xfu128 == (base >> 76u128) & 0xfu128) by (bit_vector);
    assert(((base ^ (((k1 as u128) & 0x3fff_ffff_ffff_ffffu128) | (((k1 as u128) >> 62u128)
        << 80u128))) >> 62u128) & 0x3u128 == (base >> 62u128) & 0x3u128) by (bit_vector);
    assert(k1 != k2 ==> base ^ (((k1 as u128) & 0x3fff_ffff_ffff_ffffu128) | (((k1 as u128)
        >> 62u128) << 80u128)) != base ^ (((k2 as u128) & 0x3fff_ffff_ffff_ffffu128) | (((
    k2 as u128) >> 62u128) << 80u128))) by (bit_vector);
}

/// Whether some pair of `pairs` carries `id`.
pub open spec fn has_id(pairs: Seq<WordPair>, id: u128) -> bool {
    exists|i: int| 0 <= i < pairs.len() && (#[trigger] pairs[i]).id == id
}

/// Decides `has_id`.
fn contains_id(pairs: &Vec<WordPair>, id: u128) -> (r: bool)
    ensures
        r == has_id(pairs@, id),
{
    let mut i: usize = 0;
    while i < pairs.len()
        invariant
            i <= pairs@.len(),
            forall|j: int| 0 <= j < i ==> (#[trigger] pairs@[j]).id != id,
        decreases pairs@.len() - i,
    {
        if pairs[i].id == id {
            return true;
        }
        i = i + 1;
    }
    false
}

/// More distinct ids than pairs cannot all be taken by the pairs.
proof fn lemma_not_all_taken(pairs: Seq<WordPair>, ids: Seq<u128>)
    requires
        ids.no_duplicates(),
        ids.len() > pairs.len(),
    ensures
        exists|j: int| 0 <= j < ids.len() && !has_id(pairs, #[trigger] ids[j]),
{
    broadcast use vstd::seq_lib::seq_to_set_is_finite;

    if forall|j: int| 0 <= j < ids.len() ==> has_id(pairs, #[trigger] ids[j]) {
        let taken = pairs.map_values(|p: WordPair| p.id);
        assert(ids.to_set().subset_of(taken.to_set())) by {
            assert forall|x: u128| ids.to_set().contains(x) implies taken.to_set().contains(x) by {
                let j = choose|j: int| 0 <= j < ids.len() && ids[j] == x;
                assert(has_id(pairs, ids[j]));
                let i = choose|i: int| 0 <= i < pairs.len() && (#[trigger] pairs[i]).id == ids[j];
                assert(taken[i] == x);
            }
        }
        ids.unique_seq_to_set();
        taken.lemma_cardinality_of_set();
        vstd::set_lib::lemma_len_subset(ids.to_set(), taken.to_set());
        assert(false);
    }
}

/// A fresh random id that no pair of `taken` carries. The random id is kept unless
/// a pair already has it; then the first of its variants `id ^ spread(k)` that no
/// pair has is taken (one of the first `taken.len() + 1` variants always is free).
fn fresh_id_among(taken: &Vec<WordPair>) -> (id: u128)
    ensures
        is_random_uuid(id),
        !has_id(taken@, id),
{
    let base = fresh_id();
    let n = taken.len();
    let mut k: usize = 0;
    loop
        invariant
            k <= n == taken@.len(),
            is_random_uuid(base),
            forall|j: int| 0 <= j < k ==> has_id(taken@, #[trigger] (base ^ spread(j as u64))),
        decreases n - k,
    {
        let candidate = base ^ (((k as u64) as u128 & 0x3fff_ffff_ffff_ffffu128) | (((k as u64)
            as u128 >> 62u128) << 80u128));
        assert(candidate == base ^ spread(k as u64));
        proof {
            lemma_spread(base, k as u64, k as u64);
        }
        if !contains_id(taken, candidate) {
            return candidate;
        }
        if k == n {
            proof {
                let ids = Seq::new((n + 1) as nat, |j: int| base ^ spread(j as u64));
                assert forall|a: int, b: int| 0 <= a < ids.len() && 0 <= b < ids.len() && a != b implies ids[a] != ids[b] by {
                    lemma_spread(base, a as u64, b as u64);
                }
                assert forall|j: int| 0 <= j < ids.len() implies has_id(taken@, #[trigger] ids[j]) by {
                    assert(ids[j] == base ^ spread(j as u64));
                }
                lemma_not_all_taken(taken@, ids);
            }
            return candidate;
        }
        k = k + 1;
    }
}

impl WordPair {
    /// A new pair whose fresh random id no pair of `taken` carries.
    pub fn new_among(word: &str, translated: &str, taken: &Vec<WordPair>) -> (pair: WordPair)
        ensures
            pair.word@ == word@,
            pair.translated@ == translated@,
            is_random_uuid(pair.id),
            forall|i: int| 0 <= i < taken@.len() ==> (#[trigger] taken@[i]).id != pair.id,
    {
        WordPair { word: word.to_owned(), translated: translated.to_owned(), id: fresh_id_among(taken) }
    }

    /// A new pair with a fresh random id.
    pub fn new(word: &str, translated: &str) -> (pair: WordPair)
        ensures
            pair.word@ == word@,
            pair.translated@ == translated@,
            is_random_uuid(pair.id),
    {
        WordPair { word: word.to_owned(), translated: translated.to_owned(), id: fresh_id() }
    }

    /// A copy of this pair.
    pub fn duplicate(&self) -> (pair: WordPair)
        ensures
            pair == *self,
    {
        WordPair { word: self.word.clone(), translated: self.translated.clone(), id: self.id }
    }
}

/// A copy of a list of pairs.
pub fn duplicate_pairs(pairs: &Vec<WordPair>) -> (copy: Vec<WordPair>)
    ensures
        copy@ == pairs@,
{
    let mut copy: Vec<WordPair> = Vec::new();
    let mut i: usize = 0;
    while i < pairs.len()
        invariant
            i <= pairs@.len(),
            copy@ == pairs@.take(i as int),
        decreases pairs@.len() - i,
    {
        copy.push(pairs[i].duplicate());
        assert(pairs@.take(i + 1) =~= pairs@.take(i as int).push(pairs@[i as int]));
        i = i + 1;
    }
    assert(pairs@.take(i as int) =~= pairs@);
    copy
}

} // verus!
