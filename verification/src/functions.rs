//! The dice, the store file's format, and the settings file's format.
use vstd::prelude::*;
use rand::Rng;

use crate::entity::WordPair;
use crate::text::{
    chars_of, decimal, decimal_i32, first_index, format_i32, lemma_decimal_digits,
    lemma_first_index, lemma_leading_white, lemma_trailing_white, parse_i32, parse_i32_range,
    push_char, string_from_range, trim_range, trimmed,
};

verus! {

/// A random number in `from..to`.
/// Trusted: `rand::Rng::gen_range` on `rand::thread_rng()`. Its source panics on an
/// empty range, which `requires` leaves out, and otherwise returns a value of the
/// range. Which one rests on chance.
#[verifier::external_body]
fn random_in(from: usize, to: usize) -> (r: usize)
    requires
        from < to,
    ensures
        from <= r < to,
{
    rand::thread_rng().gen_range(from..to)
}

/// A random number in `from..to`, or `None` when `to` is zero.
/// (The range must not be empty otherwise.)
pub fn dice(from: usize, to: usize) -> (r: Option<usize>)
    requires
        to == 0 || from < to,
    ensures
        r is None <==> to == 0,
        r matches Some(v) ==> from <= v < to,
{
    if to == 0 {
        return None;
    }
    Some(random_in(from, to))
}

// ---------------------------------------------------------------------------
// The store file: one line `word|translated|id` per pair.

/// The lowercase hexadecimal digit for `0 <= d < 16`.
pub open spec fn hex_digit(d: int) -> char {
    if d < 10 {
        (d + '0' as int) as char
    } else {
        (d - 10 + 'a' as int) as char
    }
}

/// The `k`-th of the 32 hexadecimal digits of `id`, most significant first.
pub open spec fn nibble(id: u128, k: int) -> int {
    (id as int / vstd::arithmetic::power::pow(16, (31 - k) as nat)) % 16
}

/// The hyphenated form of a UUID: its 32 lowercase hexadecimal digits in groups
/// of 8, 4, 4, 4 and 12, joined by `-`.
pub open spec fn uuid_text(id: u128) -> Seq<char> {
    Seq::new(
        36,
        |i: int|
            if i == 8 || i == 13 || i == 18 || i == 23 {
                '-'
            } else {
                hex_digit(
                    nibble(
                        id,
                        if i < 8 {
                            i
                        } else if i < 13 {
                            i - 1
                        } else if i < 18 {
                            i - 2
                        } else if i < 23 {
                            i - 3
                        } else {
                            i - 4
                        },
                    ),
                )
            },
    )
}

/// The text of a UUID.
/// Trusted: `uuid::Uuid::from_u128` and the `Display` impl of `uuid::Uuid`. In the
/// source, `from_u128` takes the big-endian bytes of the value, and `Display` writes
/// the hyphenated form: two lowercase hex digits per byte, high nibble first, with
/// `-` after the 8th, 12th, 16th and 20th digit.
#[verifier::external_body]
fn uuid_string(id: u128) -> (s: String)
    ensures
        s@ == uuid_text(id),
{
    uuid::Uuid::from_u128(id).to_string()
}

/// The line that stands for `pair` in the store file, without its line ending.
pub open spec fn pair_line(pair: WordPair) -> Seq<char> {
    pair.word@ + seq!['|'] + pair.translated@ + seq!['|'] + uuid_text(pair.id)
}

/// The content of the store file for `pairs`: one line per pair, each ended by `\n`.
pub open spec fn store_text(pairs: Seq<WordPair>) -> Seq<char>
    decreases pairs.len(),
{
    if pairs.len() == 0 {
        Seq::empty()
    } else {
        pair_line(pairs[0]) + seq!['\n'] + store_text(pairs.drop_first())
    }
}

/// The text that the store file holds for `data`.
pub fn store_content(data: &Vec<WordPair>) -> (content: String)
    ensures
        content@ == store_text(data@),
{
    let mut content = String::new();
    let mut i: usize = 0;
    assert(data@.skip(0) =~= data@);
    assert(content@ + store_text(data@) =~= store_text(data@));
    while i < data.len()
        invariant
            i <= data@.len(),
            content@ + store_text(data@.skip(i as int)) == store_text(data@),
        decreases data@.len() - i,
    {
        let ghost before = content@;
        let pair = &data[i];
        content.append(pair.word.as_str());
        push_char(&mut content, '|');
        content.append(pair.translated.as_str());
        push_char(&mut content, '|');
        let id_text = uuid_string(pair.id);
        content.append(id_text.as_str());
        push_char(&mut content, '\n');
        proof {
            let rest = data@.skip(i as int);
            assert(rest.drop_first() =~= data@.skip(i + 1));
            assert(content@ =~= before + (pair_line(rest[0]) + seq!['\n']));
            assert(store_text(rest) == pair_line(rest[0]) + seq!['\n'] + store_text(rest.drop_first()));
            assert(before + store_text(rest) =~= content@ + store_text(data@.skip(i + 1)));
        }
        i = i + 1;
    }
    assert(store_text(data@.skip(i as int)) =~= Seq::<char>::empty());
    assert(content@ + Seq::<char>::empty() =~= content@);
    content
}


/// `line` without one carriage return at its end.
pub open spec fn strip_cr(line: Seq<char>) -> Seq<char> {
    if line.len() > 0 && line.last() == '\r' {
        line.drop_last()
    } else {
        line
    }
}

/// The lines of `s`, as `str::lines` gives them: split at `\n`, a `\r` just before
/// a `\n` dropped, and no empty last line after a final `\n`.
pub open spec fn text_lines(s: Seq<char>) -> Seq<Seq<char>>
    decreases s.len(),
{
    if s.len() == 0 {
        Seq::empty()
    } else {
        let k = first_index(s, '\n');
        if k >= s.len() {
            seq![s]
        } else {
            seq![strip_cr(s.take(k as int))] + text_lines(s.skip(k + 1 as int))
        }
    }
}

/// The word and the translation of a store line: the text before the first `|`,
/// and the text between the first and the second `|`. `None` when the line has
/// fewer than two `|`.
pub open spec fn line_fields(line: Seq<char>) -> Option<(Seq<char>, Seq<char>)> {
    let i = first_index(line, '|');
    if i >= line.len() {
        None
    } else {
        let rest = line.skip(i + 1 as int);
        let j = first_index(rest, '|');
        if j >= rest.len() {
            None
        } else {
            Some((line.take(i as int), rest.take(j as int)))
        }
    }
}

/// The words and translations that the store text `text` holds, one per line;
/// `None` when some line does not have both.
pub open spec fn store_entries(text: Seq<char>) -> Option<Seq<(Seq<char>, Seq<char>)>> {
    let lines = text_lines(text);
    if forall|i: int| 0 <= i < lines.len() ==> (#[trigger] line_fields(lines[i])) is Some {
        Some(lines.map_values(|l: Seq<char>| line_fields(l)->0))
    } else {
        None
    }
}

/// The first index in `from..to` at which `chars` holds `c`, or `to`.
fn find_char(chars: &Vec<char>, c: char, from: usize, to: usize) -> (r: usize)
    requires
        from <= to <= chars@.len(),
    ensures
        from <= r <= to,
        forall|i: int| from <= i < r ==> chars@[i] != c,
        r < to ==> chars@[r as int] == c,
{
    let mut k = from;
    while k < to && chars[k] != c
        invariant
            from <= k <= to <= chars@.len(),
            forall|i: int| from <= i < k ==> chars@[i] != c,
        decreases to - k,
    {
        k = k + 1;
    }
    k
}

/// Peeling one line off the front of the text at `pos`: the line runs to the first
/// `\n` at `k` (or to the end), less a `\r` before that `\n`.
proof fn lemma_next_line(s: Seq<char>, pos: int, k: int, end: int)
    requires
        0 <= pos < s.len(),
        pos <= k <= s.len(),
        forall|i: int| pos <= i < k ==> s[i] != '\n',
        k == s.len() || s[k] == '\n',
        end == (if k < s.len() && k > pos && s[k - 1] == '\r' {
            k - 1
        } else {
            k
        }),
    ensures
        text_lines(s.skip(pos)) == seq![s.subrange(pos, end)] + text_lines(
            s.skip(if k < s.len() { k + 1 } else { s.len() as int }),
        ),
{
    let t = s.skip(pos);
    lemma_first_index(t, '\n', k - pos);
    let line = s.subrange(pos, end);
    if k < s.len() {
        assert(t.take(k - pos) =~= s.subrange(pos, k));
        assert(t.skip(k - pos + 1) =~= s.skip(k + 1));
        assert(strip_cr(t.take(k - pos)) =~= line);
    } else {
        assert(t =~= line);
        assert(text_lines(s.skip(s.len() as int)) =~= Seq::<Seq<char>>::empty());
        assert(seq![line] + Seq::<Seq<char>>::empty() =~= seq![line]);
    }
}

/// The fields of a line whose first `|` is at `a` and whose next `|` is at `b`.
proof fn lemma_line_fields(s: Seq<char>, pos: int, a: int, b: int, end: int)
    requires
        0 <= pos <= a <= end <= s.len(),
        forall|i: int| pos <= i < a ==> s[i] != '|',
        a == end || s[a] == '|',
        a < end ==> {
            &&& a + 1 <= b <= end
            &&& forall|i: int| a + 1 <= i < b ==> s[i] != '|'
            &&& (b == end || s[b] == '|')
        },
    ensures
        line_fields(s.subrange(pos, end)) is Some <==> (a < end && b < end),
        a < end && b < end ==> line_fields(s.subrange(pos, end)) == Some(
            (s.subrange(pos, a), s.subrange(a + 1, b)),
        ),
{
    let line = s.subrange(pos, end);
    lemma_first_index(line, '|', a - pos);
    if a < end {
        let rest = line.skip(a - pos + 1);
        assert(rest =~= s.subrange(a + 1, end));
        lemma_first_index(rest, '|', b - a - 1);
        assert(line.take(a - pos) =~= s.subrange(pos, a));
        assert(rest.take(b - a - 1) =~= s.subrange(a + 1, b));
    }
}

/// The pairs that the store text `text` holds, each with a fresh id; `None` when
/// some line does not hold a word and a translation.
pub fn load_store(text: &str) -> (r: Option<Vec<WordPair>>)
    ensures
        r is Some <==> store_entries(text@) is Some,
        r matches Some(pairs) ==> {
            let entries = store_entries(text@)->0;
            &&& pairs@.len() == entries.len()
            &&& forall|i: int|
                0 <= i < pairs@.len() ==> {
                    &&& (#[trigger] pairs@[i]).word@ == entries[i].0
                    &&& pairs@[i].translated@ == entries[i].1
                    &&& crate::entity::is_random_uuid(pairs@[i].id)
                }
            &&& forall|i: int, j: int|
                0 <= i < pairs@.len() && 0 <= j < pairs@.len() && i != j ==> (#[trigger] pairs@[i]).id
                    != (#[trigger] pairs@[j]).id
        },
{
    let mut storage: Vec<WordPair> = Vec::new();
    if text.is_empty() {
        assert(text_lines(text@) =~= Seq::<Seq<char>>::empty());
        assert(store_entries(text@)->0 =~= Seq::<(Seq<char>, Seq<char>)>::empty());
        return Some(storage);
    }
    let chars = chars_of(text);
    let n = chars.len();
    let mut pos: usize = 0;
    let ghost mut done: Seq<Seq<char>> = Seq::empty();
    assert(chars@.skip(0) =~= chars@);
    assert(done + text_lines(chars@) =~= text_lines(chars@));
    while pos < n
        invariant
            pos <= n == chars@.len(),
            chars@ == text@,
            text_lines(chars@) == done + text_lines(chars@.skip(pos as int)),
            storage@.len() == done.len(),
            forall|i: int|
                0 <= i < done.len() ==> {
                    &&& (#[trigger] line_fields(done[i])) is Some
                    &&& storage@[i].word@ == (line_fields(done[i])->0).0
                    &&& storage@[i].translated@ == (line_fields(done[i])->0).1
                    &&& crate::entity::is_random_uuid(storage@[i].id)
                },
            forall|i: int, j: int|
                0 <= i < storage@.len() && 0 <= j < storage@.len() && i != j ==> (
                #[trigger] storage@[i]).id != (#[trigger] storage@[j]).id,
        decreases n - pos,
    {
        let k = find_char(&chars, '\n', pos, n);
        let mut end = k;
        if k < n && end > pos && chars[end - 1] == '\r' {
            end = end - 1;
        }
        let next = if k < n {
            k + 1
        } else {
            n
        };
        let ghost line = chars@.subrange(pos as int, end as int);
        proof {
            lemma_next_line(chars@, pos as int, k as int, end as int);
            assert(text_lines(chars@) == (done + seq![line]) + text_lines(chars@.skip(next as int)))
                by {
                assert(done + (seq![line] + text_lines(chars@.skip(next as int))) =~= (done
                    + seq![line]) + text_lines(chars@.skip(next as int)));
            }
        }
        let a = find_char(&chars, '|', pos, end);
        let b = if a < end {
            find_char(&chars, '|', a + 1, end)
        } else {
            end
        };
        proof {
            lemma_line_fields(chars@, pos as int, a as int, b as int, end as int);
        }
        if b == end {
            proof {
                let lines = text_lines(chars@);
                assert(lines[done.len() as int] == line);
                assert(line_fields(lines[done.len() as int]) is None);
            }
            return None;
        }
        let word = string_from_range(&chars, pos, a);
        let translated = string_from_range(&chars, a + 1, b);
        let pair = WordPair::new_among(word.as_str(), translated.as_str(), &storage);
        let ghost old_storage = storage@;
        let ghost old_done = done;
        storage.push(pair);
        proof {
            done = done.push(line);
            assert(done =~= old_done + seq![line]);
            assert forall|i: int| 0 <= i < done.len() implies {
                &&& (#[trigger] line_fields(done[i])) is Some
                &&& storage@[i].word@ == (line_fields(done[i])->0).0
                &&& storage@[i].translated@ == (line_fields(done[i])->0).1
                &&& crate::entity::is_random_uuid(storage@[i].id)
            } by {
                if i < old_done.len() {
                    assert(done[i] == old_done[i]);
                    assert(storage@[i] == old_storage[i]);
                }
            }
        }
        pos = next;
    }
    proof {
        assert(text_lines(chars@.skip(pos as int)) =~= Seq::<Seq<char>>::empty());
        assert(text_lines(chars@) =~= done);
    }
    Some(storage)
}

/// Whether `s` can stand as a field of the store file: it holds neither the field
/// separator `|` nor a line break.
pub open spec fn is_plain_field(s: Seq<char>) -> bool {
    forall|i: int| 0 <= i < s.len() ==> s[i] != '|' && s[i] != '\n'
}

/// Every character of a UUID's text is a hex digit or `-`.
proof fn lemma_uuid_text_chars(id: u128)
    ensures
        uuid_text(id).len() == 36,
        forall|i: int|
            0 <= i < 36 ==> {
                let c = #[trigger] uuid_text(id)[i];
                c == '-' || ('0' <= c <= '9') || ('a' <= c <= 'f')
            },
{
}

/// A pair's line splits back into its word and its translation.
proof fn lemma_pair_line_fields(pair: WordPair)
    requires
        is_plain_field(pair.word@),
        is_plain_field(pair.translated@),
    ensures
        line_fields(pair_line(pair)) == Some((pair.word@, pair.translated@)),
{
    let w = pair.word@;
    let t = pair.translated@;
    let line = pair_line(pair);
    assert(line[w.len() as int] == '|');
    assert forall|i: int| 0 <= i < w.len() implies line[i] != '|' by {
        assert(line[i] == w[i]);
    }
    lemma_first_index(line, '|', w.len() as int);
    let rest = line.skip(w.len() + 1 as int);
    assert(rest =~= t + seq!['|'] + uuid_text(pair.id));
    assert(rest[t.len() as int] == '|');
    assert forall|i: int| 0 <= i < t.len() implies rest[i] != '|' by {
        assert(rest[i] == t[i]);
    }
    lemma_first_index(rest, '|', t.len() as int);
    assert(line.take(w.len() as int) =~= w);
    assert(rest.take(t.len() as int) =~= t);
}

/// The lines of the store text are the lines of the pairs.
proof fn lemma_store_text_lines(pairs: Seq<WordPair>)
    requires
        forall|i: int|
            0 <= i < pairs.len() ==> is_plain_field((#[trigger] pairs[i]).word@)
                && is_plain_field(pairs[i].translated@),
    ensures
        text_lines(store_text(pairs)) == pairs.map_values(|p: WordPair| pair_line(p)),
    decreases pairs.len(),
{
    if pairs.len() == 0 {
        assert(text_lines(store_text(pairs)) =~= pairs.map_values(|p: WordPair| pair_line(p)));
    } else {
        let p = pairs[0];
        let line = pair_line(p);
        let rest = pairs.drop_first();
        lemma_store_text_lines(rest);
        let x = store_text(pairs);
        assert(x == line + seq!['\n'] + store_text(rest));
        lemma_uuid_text_chars(p.id);
        let w = p.word@;
        let t = p.translated@;
        assert forall|i: int| 0 <= i < line.len() implies x[i] != '\n' by {
            assert(x[i] == line[i]);
            if i < w.len() {
                assert(line[i] == w[i]);
            } else if w.len() < i < w.len() + 1 + t.len() {
                assert(line[i] == t[i - w.len() - 1]);
            } else if i >= w.len() + 2 + t.len() {
                assert(line[i] == uuid_text(p.id)[i - w.len() - 2 - t.len()]);
            }
        }
        assert(x[line.len() as int] == '\n');
        lemma_first_index(x, '\n', line.len() as int);
        assert(x.take(line.len() as int) =~= line);
        assert(x.skip(line.len() + 1 as int) =~= store_text(rest));
        assert(line.last() == uuid_text(p.id)[35]);
        assert(strip_cr(line) == line);
        assert(text_lines(x) =~= pairs.map_values(|p: WordPair| pair_line(p)));
    }
}

/// Reading back what was written: the store text of pairs whose words and
/// translations hold no `|` and no line break reads back as those same words and
/// translations, in the same order. (Ids are not read back: `load_store` gives
/// every pair a fresh one.)
pub proof fn lemma_store_round_trip(pairs: Seq<WordPair>)
    requires
        forall|i: int|
            0 <= i < pairs.len() ==> is_plain_field((#[trigger] pairs[i]).word@)
                && is_plain_field(pairs[i].translated@),
    ensures
        store_entries(store_text(pairs)) == Some(
            pairs.map_values(|p: WordPair| (p.word@, p.translated@)),
        ),
{
    lemma_store_text_lines(pairs);
    let lines = text_lines(store_text(pairs));
    assert forall|i: int| 0 <= i < lines.len() implies (#[trigger] line_fields(lines[i])) is Some
        && line_fields(lines[i]) == Some((pairs[i].word@, pairs[i].translated@)) by {
        lemma_pair_line_fields(pairs[i]);
    }
    assert(lines.map_values(|l: Seq<char>| line_fields(l)->0) =~= pairs.map_values(
        |p: WordPair| (p.word@, p.translated@),
    ));
}

// ---------------------------------------------------------------------------
// The settings file: the number of the chosen color theme.

/// The color themes that the window offers, in the order of its choice menu.
#[derive(Copy, Clone, Debug, PartialEq, Eq, Structural)]
pub enum Theme {
    Dark,
    Black,
    Gray,
    Shake,
    Tan,
}

/// The number of a theme: its place in the choice menu.
pub open spec fn theme_number(theme: Theme) -> i32 {
    match theme {
        Theme::Dark => 0,
        Theme::Black => 1,
        Theme::Gray => 2,
        Theme::Shake => 3,
        Theme::Tan => 4,
    }
}

/// The theme with number `id`, if there is one.
pub open spec fn theme_with_number(id: i32) -> Option<Theme> {
    if id == 0 {
        Some(Theme::Dark)
    } else if id == 1 {
        Some(Theme::Black)
    } else if id == 2 {
        Some(Theme::Gray)
    } else if id == 3 {
        Some(Theme::Shake)
    } else if id == 4 {
        Some(Theme::Tan)
    } else {
        None
    }
}

impl Theme {
    /// The number of this theme: its place in the choice menu.
    pub fn id(&self) -> (r: i32)
        ensures
            r == theme_number(*self),
    {
        match self {
            Theme::Dark => 0,
            Theme::Black => 1,
            Theme::Gray => 2,
            Theme::Shake => 3,
            Theme::Tan => 4,
        }
    }

    /// The theme with number `id`; `None` outside `0..=4`.
    pub fn from_id(id: i32) -> (r: Option<Theme>)
        ensures
            r == theme_with_number(id),
    {
        if id == 0 {
            Some(Theme::Dark)
        } else if id == 1 {
            Some(Theme::Black)
        } else if id == 2 {
            Some(Theme::Gray)
        } else if id == 3 {
            Some(Theme::Shake)
        } else if id == 4 {
            Some(Theme::Tan)
        } else {
            None
        }
    }
}

/// What the settings file says.
#[derive(Copy, Clone, Debug, PartialEq, Eq, Structural)]
pub enum Setting {
    /// The file holds no number.
    Unset,
    /// The file names this theme.
    Saved(Theme),
    /// The file holds a number that names no theme.
    OutOfRange(i32),
}

/// What the settings text `text` says: its trimmed content read as an `i32`.
pub open spec fn setting_of(text: Seq<char>) -> Setting {
    match parse_i32(trimmed(text)) {
        None => Setting::Unset,
        Some(id) => match theme_with_number(id) {
            Some(theme) => Setting::Saved(theme),
            None => Setting::OutOfRange(id),
        },
    }
}

/// The text that the settings file holds for the theme number `data`.
pub fn settings_content(data: i32) -> (content: String)
    ensures
        content@ == decimal_i32(data),
{
    format_i32(data)
}

/// Reads the settings text `text`.
pub fn load_settings(text: &str) -> (r: Setting)
    ensures
        r == setting_of(text@),
{
    let chars = chars_of(text);
    let (lo, hi) = trim_range(&chars);
    match parse_i32_range(&chars, lo, hi) {
        None => Setting::Unset,
        Some(id) => match Theme::from_id(id) {
            Some(theme) => Setting::Saved(theme),
            None => Setting::OutOfRange(id),
        },
    }
}

/// Every theme has a number, and that number names it again; the numbers are
/// exactly `0..=4`.
pub proof fn lemma_theme_numbers(theme: Theme, id: i32)
    ensures
        theme_with_number(theme_number(theme)) == Some(theme),
        theme_with_number(id) is Some <==> 0 <= id <= 4,
        theme_with_number(id) matches Some(t) ==> theme_number(t) == id,
{
}

/// Reading back what was written: the settings text written for any number reads
/// back as that number.
pub proof fn lemma_settings_round_trip(data: i32)
    ensures
        parse_i32(trimmed(decimal_i32(data))) == Some(data),
        setting_of(decimal_i32(data)) == match theme_with_number(data) {
            Some(theme) => Setting::Saved(theme),
            None => Setting::OutOfRange(data),
        },
{
    let s = decimal_i32(data);
    let magnitude: nat = if data < 0 {
        (-data) as nat
    } else {
        data as nat
    };
    lemma_decimal_digits(magnitude);
    let digits = decimal(magnitude);
    assert(crate::text::is_digit(digits[0]));
    assert(crate::text::is_digit(digits[digits.len() - 1]));
    if data < 0 {
        assert(s.drop_first() =~= digits);
    }
    assert(s.len() > 0);
    assert(s.last() == digits.last());
    lemma_leading_white(s, 0);
    lemma_trailing_white(s, s.len() as int);
    assert(trimmed(s) =~= s);
}

/// The setting depends on nothing but the number that the trimmed text reads as:
/// two texts that read as the same number (or as none) say the same thing.
pub proof fn lemma_setting_by_number(text1: Seq<char>, text2: Seq<char>)
    requires
        parse_i32(trimmed(text1)) == parse_i32(trimmed(text2)),
    ensures
        setting_of(text1) == setting_of(text2),
{
}

/// A settings text names a theme exactly when it reads as that theme's number; it
/// is unset exactly when it reads as no number at all.
pub proof fn lemma_setting_names_theme(text: Seq<char>, theme: Theme)
    ensures
        setting_of(text) == Setting::Saved(theme) <==> parse_i32(trimmed(text)) == Some(theme_number(theme)),
        setting_of(text) == Setting::Unset <==> parse_i32(trimmed(text)) is None,
        setting_of(text) matches Setting::OutOfRange(id) ==> parse_i32(trimmed(text)) == Some(id) && !(0 <= id <= 4),
{
}

/// The saved theme comes back: the settings text written for a theme's number
/// reads back as that theme.
pub proof fn lemma_saved_theme_comes_back(theme: Theme)
    ensures
        setting_of(decimal_i32(theme_number(theme))) == Setting::Saved(theme),
{
    lemma_settings_round_trip(theme_number(theme));
}

} // verus!
