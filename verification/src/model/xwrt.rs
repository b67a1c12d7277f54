//! XWRT: word replacement transform.
//!
//! The most frequent words of a text get tokens: ids up to 126 a single byte
//! from `0x80` to `0xFE`, larger ids the escape `0xFF` and two little-endian
//! bytes. Bytes that belong to no known word pass through unchanged. Text that
//! is ASCII never holds a literal high byte, so that the high range is free for
//! tokens.

use crate::bytes;
use crate::sorting;
use crate::split_common;
use vstd::prelude::*;

verus! {

/// The number of words a dictionary holds at most.
pub const MAX_XWRT_WORDS: usize = 1024;

/// Longest word that is kept; it fits the length byte of a serialized word.
pub const MAX_XWRT_WORD_LEN: usize = 255;

/// Shortest word that is kept.
pub const MIN_XWRT_WORD_LEN: usize = 2;

/// Escape byte of ids above `XWRT_SINGLE_MAX_ID`.
pub const XWRT_ESC: u8 = 0xFF;

/// Highest id that fits in a single token byte.
pub const XWRT_SINGLE_MAX_ID: usize = 126;

/// Length of an escaped token.
pub const ESC_TOKEN_LEN: usize = 3;

/// White space, NUL and ASCII punctuation separate words.
pub open spec fn breaks_word(b: u8) -> bool {
    b == 0x20 || b == 0x09 || b == 0x0A || b == 0x0D || b == 0x00 || 0x21 <= b <= 0x2F || 0x3A
        <= b <= 0x40 || 0x5B <= b <= 0x60 || 0x7B <= b <= 0x7E
}

/// Checks if a byte is a word break character.
pub fn is_word_break(b: u8) -> (r: bool)
    ensures
        r == breaks_word(b),
{
    b == 0x20 || b == 0x09 || b == 0x0A || b == 0x0D || b == 0x00 || (0x21 <= b && b <= 0x2F) || (
    0x3A <= b && b <= 0x40) || (0x5B <= b && b <= 0x60) || (0x7B <= b && b <= 0x7E)
}

/// What `String::from_utf8_lossy` makes of a byte sequence, as UTF-8 bytes.
pub uninterp spec fn lossy_utf8(s: Seq<u8>) -> Seq<u8>;

/// Calls `String::from_utf8_lossy` and gives the bytes of the string.
///
/// Claimed of that function: its result depends on the bytes alone; being valid
/// UTF-8, it is left as it is when it is converted once more; and it is empty
/// for no bytes only.
#[verifier::external_body]
fn decode_lossy(word: &[u8]) -> (r: Vec<u8>)
    ensures
        r@ == lossy_utf8(word@),
        lossy_utf8(r@) == r@,
        word@.len() > 0 ==> r@.len() > 0,
{
    String::from_utf8_lossy(word).into_owned().into_bytes()
}

/// A word as text: bytes that are no valid UTF-8 are replaced. ASCII is valid.
pub open spec fn as_text(word: Seq<u8>) -> Seq<u8> {
    if split_common::all_ascii(word) {
        word
    } else {
        lossy_utf8(word)
    }
}

/// Turns a word into text.
fn to_text(word: &[u8]) -> (r: Vec<u8>)
    ensures
        r@ == as_text(word@),
        as_text(r@) == r@,
        word@.len() > 0 ==> r@.len() > 0,
{
    if split_common::is_all_ascii(word) {
        vstd::slice::slice_to_vec(word)
    } else {
        decode_lossy(word)
    }
}

/// A word and how often it was seen.
pub struct WordCount {
    pub word: Seq<u8>,
    pub freq: int,
}

/// The place of a word among those seen; their number if it is new.
pub open spec fn place_of(seen: Seq<WordCount>, word: Seq<u8>) -> int
    decreases seen.len(),
{
    if seen.len() == 0 || seen[0].word == word {
        0
    } else {
        1 + place_of(seen.drop_first(), word)
    }
}

/// Whether a raw word is kept: neither it nor its text is too short or too long.
pub open spec fn is_kept(raw: Seq<u8>) -> bool {
    MIN_XWRT_WORD_LEN <= raw.len() <= MAX_XWRT_WORD_LEN && as_text(raw).len() <= MAX_XWRT_WORD_LEN
}

/// The words seen after one more occurrence.
pub open spec fn counted(seen: Seq<WordCount>, raw: Seq<u8>) -> Seq<WordCount> {
    if !is_kept(raw) {
        seen
    } else {
        let w = as_text(raw);
        let p = place_of(seen, w);
        if p < seen.len() {
            seen.update(p, WordCount { word: w, freq: seen[p].freq + 1 })
        } else {
            seen.push(WordCount { word: w, freq: 1 })
        }
    }
}

/// The words seen after the occurrences in `raws`.
pub open spec fn counted_all(seen: Seq<WordCount>, raws: Seq<Seq<u8>>) -> Seq<WordCount>
    decreases raws.len(),
{
    if raws.len() == 0 {
        seen
    } else {
        counted_all(counted(seen, raws[0]), raws.drop_first())
    }
}

/// The frequencies with the places.
pub open spec fn rank_keys(seen: Seq<WordCount>) -> Seq<(usize, usize)> {
    Seq::new(seen.len(), |i: int| (seen[i].freq as usize, i as usize))
}

/// The words at the ranked places that are longer than an escaped token, at
/// most `room` of them.
pub open spec fn long_words(
    seen: Seq<WordCount>,
    ranks: Seq<(usize, usize)>,
    room: int,
) -> Seq<Seq<u8>>
    decreases ranks.len(),
{
    if ranks.len() == 0 || room <= 0 {
        Seq::empty()
    } else {
        let w = seen[ranks[0].1 as int].word;
        if w.len() > ESC_TOKEN_LEN {
            seq![w] + long_words(seen, ranks.drop_first(), room - 1)
        } else {
            long_words(seen, ranks.drop_first(), room)
        }
    }
}

/// How many ranks get a single-byte token.
pub open spec fn single_slots(n: int) -> int {
    if n <= XWRT_SINGLE_MAX_ID + 1 {
        n
    } else {
        XWRT_SINGLE_MAX_ID + 1
    }
}

/// The dictionary of the words seen: the most frequent ones, earlier ones first
/// among equals; beyond the single-byte tokens only words that an escaped token
/// shortens.
pub open spec fn chosen(seen: Seq<WordCount>) -> Seq<Seq<u8>> {
    let ranks = sorting::ranked(rank_keys(seen));
    let k = single_slots(ranks.len() as int);
    Seq::new(k as nat, |i: int| seen[ranks[i].1 as int].word) + long_words(
        seen,
        ranks.skip(k),
        MAX_XWRT_WORDS - k,
    )
}

/// The length of the word that `d` starts with.
pub open spec fn word_run(d: Seq<u8>) -> int
    decreases d.len(),
{
    if d.len() == 0 || breaks_word(d[0]) {
        0
    } else {
        1 + word_run(d.drop_first())
    }
}

/// The words of a text.
pub open spec fn words_in(d: Seq<u8>) -> Seq<Seq<u8>>
    decreases d.len(),
{
    if d.len() == 0 {
        Seq::empty()
    } else {
        let k = word_run(d);
        if 0 < k <= d.len() {
            seq![d.take(k)] + words_in(d.skip(k))
        } else {
            words_in(d.drop_first())
        }
    }
}

/// The length of the token that `d` starts with; a cut escape counts alone.
pub open spec fn token_len(d: Seq<u8>) -> int {
    if d[0] == XWRT_ESC && d.len() >= ESC_TOKEN_LEN {
        ESC_TOKEN_LEN as int
    } else {
        1
    }
}

/// The length of the word without tokens that `d` starts with.
pub open spec fn literal_run(d: Seq<u8>) -> int
    decreases d.len(),
{
    if d.len() == 0 || d[0] >= 0x80 || breaks_word(d[0]) {
        0
    } else {
        1 + literal_run(d.drop_first())
    }
}

/// The words that stand literally in a transformed text.
pub open spec fn literal_words(d: Seq<u8>) -> Seq<Seq<u8>>
    decreases d.len(),
{
    if d.len() == 0 {
        Seq::empty()
    } else if d[0] >= 0x80 {
        literal_words(d.skip(token_len(d)))
    } else {
        let k = literal_run(d);
        if 0 < k <= d.len() {
            seq![d.take(k)] + literal_words(d.skip(k))
        } else {
            literal_words(d.drop_first())
        }
    }
}

/// The dictionary of a text.
pub open spec fn dictionary_of(d: Seq<u8>) -> Seq<Seq<u8>> {
    chosen(counted_all(Seq::empty(), words_in(d)))
}

/// The dictionary of the literal words of a transformed text.
pub open spec fn literal_dictionary_of(d: Seq<u8>) -> Seq<Seq<u8>> {
    chosen(counted_all(Seq::empty(), literal_words(d)))
}

/// The last place among the first `k` that holds `word`; -1 if none does.
pub open spec fn last_place(dict: Seq<Seq<u8>>, word: Seq<u8>, k: int) -> int
    decreases k,
{
    if k <= 0 {
        -1
    } else if dict[k - 1] == word {
        k - 1
    } else {
        last_place(dict, word, k - 1)
    }
}

/// The id of the word at place `k`: the last place that holds it.
pub open spec fn id_at(dict: Seq<Seq<u8>>, k: int) -> int {
    last_place(dict, dict[k], dict.len() as int)
}

/// Whether `w` starts `d`.
pub open spec fn starts_with(d: Seq<u8>, w: Seq<u8>) -> bool {
    w.len() <= d.len() && d.take(w.len() as int) == w
}

/// Whether the word at place `k` replaces the start of `d`: it stands there and
/// its token is not longer than itself.
pub open spec fn replaces(dict: Seq<Seq<u8>>, d: Seq<u8>, k: int) -> bool {
    starts_with(d, dict[k]) && (id_at(dict, k) <= XWRT_SINGLE_MAX_ID || dict[k].len()
        > ESC_TOKEN_LEN)
}

/// How many words a transform tries.
pub open spec fn tried(dict: Seq<Seq<u8>>) -> int {
    if dict.len() < MAX_XWRT_WORDS {
        dict.len() as int
    } else {
        MAX_XWRT_WORDS as int
    }
}

/// The first word from place `k` on that replaces the start of `d`; the number
/// of words tried if none does.
pub open spec fn first_match(dict: Seq<Seq<u8>>, d: Seq<u8>, k: int) -> int
    decreases tried(dict) - k,
{
    if k >= tried(dict) || replaces(dict, d, k) {
        k
    } else {
        first_match(dict, d, k + 1)
    }
}

/// The token of an id.
pub open spec fn token(id: int) -> Seq<u8> {
    if id <= XWRT_SINGLE_MAX_ID {
        seq![(0x80 + id) as u8]
    } else {
        seq![XWRT_ESC] + bytes::le16(id)
    }
}

/// The transformed form of `d`.
pub open spec fn xwrt_coded(dict: Seq<Seq<u8>>, d: Seq<u8>) -> Seq<u8>
    decreases d.len(),
{
    if d.len() == 0 {
        Seq::empty()
    } else if breaks_word(d[0]) {
        seq![d[0]] + xwrt_coded(dict, d.drop_first())
    } else {
        let k = first_match(dict, d, 0);
        if k < tried(dict) && 0 < dict[k].len() <= d.len() {
            token(id_at(dict, k)) + xwrt_coded(dict, d.skip(dict[k].len() as int))
        } else {
            seq![d[0]] + xwrt_coded(dict, d.drop_first())
        }
    }
}

/// The id of the token that `d` starts with, if it starts with one.
pub open spec fn token_id(d: Seq<u8>) -> Option<int> {
    if d.len() == 0 || d[0] < 0x80 {
        None
    } else if d[0] == XWRT_ESC {
        if d.len() < ESC_TOKEN_LEN {
            None
        } else {
            Some(bytes::un_le16(d, 1))
        }
    } else {
        Some(d[0] - 0x80)
    }
}

/// The text that a transformed text stands for; a token without a word stands
/// for nothing.
pub open spec fn xwrt_plain(dict: Seq<Seq<u8>>, d: Seq<u8>) -> Seq<u8>
    decreases d.len(),
{
    if d.len() == 0 {
        Seq::empty()
    } else {
        match token_id(d) {
            None => seq![d[0]] + xwrt_plain(dict, d.drop_first()),
            Some(id) => (if id < dict.len() {
                dict[id]
            } else {
                Seq::empty()
            }) + xwrt_plain(dict, d.skip(token_len(d))),
        }
    }
}

/// No word is empty.
pub open spec fn no_empty_word(dict: Seq<Seq<u8>>) -> bool {
    forall|k: int| 0 <= k < dict.len() ==> (#[trigger] dict[k]).len() > 0
}

/// No word that is tried and has a token of one byte is empty: such a word would
/// stand at every place and take nothing of the text. One with a longer token is
/// passed over.
pub open spec fn no_endless_word(dict: Seq<Seq<u8>>) -> bool {
    forall|k: int|
        0 <= k < tried(dict) && id_at(dict, k) <= XWRT_SINGLE_MAX_ID ==> (#[trigger] dict[k]).len()
            > 0
}

/// Every word fits its length byte.
pub open spec fn words_fit(dict: Seq<Seq<u8>>) -> bool {
    forall|k: int| 0 <= k < dict.len() ==> (#[trigger] dict[k]).len() <= MAX_XWRT_WORD_LEN
}

/// Every word is text that converting leaves as it is.
pub open spec fn words_are_text(dict: Seq<Seq<u8>>) -> bool {
    forall|k: int| 0 <= k < dict.len() ==> as_text(#[trigger] dict[k]) == dict[k]
}

/// The serialized form of the first `k` words.
pub open spec fn word_bytes(dict: Seq<Seq<u8>>, k: int) -> Seq<u8>
    decreases k,
{
    if k <= 0 {
        Seq::empty()
    } else {
        word_bytes(dict, k - 1) + seq![dict[k - 1].len() as u8] + dict[k - 1]
    }
}

/// The serialized form of a dictionary: the number of words, then each word
/// behind its length.
pub open spec fn dict_bytes(dict: Seq<Seq<u8>>) -> Seq<u8> {
    bytes::le16(tried(dict)) + word_bytes(dict, tried(dict))
}

/// `k` words read from position `pos` on, behind those in `acc`.
pub open spec fn read_words(d: Seq<u8>, pos: int, k: int, acc: Seq<Seq<u8>>) -> Option<
    Seq<Seq<u8>>,
>
    decreases k,
{
    if k <= 0 {
        Some(acc)
    } else if pos >= d.len() || pos + 1 + d[pos] > d.len() {
        None
    } else {
        let len = d[pos] as int;
        read_words(
            d,
            pos + 1 + len,
            k - 1,
            acc.push(as_text(d.subrange(pos + 1, pos + 1 + len))),
        )
    }
}

/// The dictionary that bytes stand for; nothing if they are cut short or claim
/// too many words.
pub open spec fn parsed_dict(d: Seq<u8>) -> Option<Seq<Seq<u8>>> {
    if d.len() < 2 || bytes::un_le16(d, 0) > MAX_XWRT_WORDS {
        None
    } else {
        read_words(d, 2, bytes::un_le16(d, 0), Seq::empty())
    }
}

proof fn lemma_last_place(dict: Seq<Seq<u8>>, word: Seq<u8>, k: int)
    requires
        0 <= k <= dict.len(),
    ensures
        -1 <= last_place(dict, word, k) < k,
        last_place(dict, word, k) >= 0 ==> dict[last_place(dict, word, k)] == word,
        forall|j: int| 0 <= j < k && #[trigger] dict[j] == word ==> last_place(dict, word, k) >= j,
    decreases k,
{
    if k > 0 {
        lemma_last_place(dict, word, k - 1);
    }
}

proof fn lemma_id_at(dict: Seq<Seq<u8>>, k: int)
    requires
        0 <= k < dict.len(),
    ensures
        k <= id_at(dict, k) < dict.len(),
        dict[id_at(dict, k)] == dict[k],
{
    lemma_last_place(dict, dict[k], dict.len() as int);
    assert(dict[k] == dict[k]);
}

proof fn lemma_first_match(dict: Seq<Seq<u8>>, d: Seq<u8>, k: int)
    requires
        0 <= k <= tried(dict),
    ensures
        k <= first_match(dict, d, k) <= tried(dict),
        first_match(dict, d, k) < tried(dict) ==> replaces(dict, d, first_match(dict, d, k)),
    decreases tried(dict) - k,
{
    if k < tried(dict) && !replaces(dict, d, k) {
        lemma_first_match(dict, d, k + 1);
    }
}

proof fn lemma_token(dict: Seq<Seq<u8>>, id: int, rest: Seq<u8>)
    requires
        0 <= id < dict.len() <= MAX_XWRT_WORDS,
    ensures
        xwrt_plain(dict, token(id) + rest) == dict[id] + xwrt_plain(dict, rest),
{
    let t = token(id) + rest;
    if id <= XWRT_SINGLE_MAX_ID {
        assert(t[0] == 0x80 + id);
        assert(t.skip(1) =~= rest);
    } else {
        assert(t[0] == XWRT_ESC);
        assert(t.subrange(1, 3) =~= bytes::le16(id));
        bytes::lemma_un_le16(t, 1, id);
        assert(t.skip(3) =~= rest);
    }
}

/// Undoing the transform of an ASCII text with the same dictionary gives the
/// text back.
pub proof fn law_xwrt_round_trip(dict: Seq<Seq<u8>>, d: Seq<u8>)
    requires
        split_common::all_ascii(d),
        dict.len() <= MAX_XWRT_WORDS,
    ensures
        xwrt_plain(dict, xwrt_coded(dict, d)) == d,
    decreases d.len(),
{
    if d.len() == 0 {
        assert(d =~= Seq::<u8>::empty());
    } else {
        let k = first_match(dict, d, 0);
        lemma_first_match(dict, d, 0);
        if !breaks_word(d[0]) && k < tried(dict) && 0 < dict[k].len() <= d.len() {
            let w = dict[k];
            let rest = d.skip(w.len() as int);
            assert(split_common::all_ascii(rest)) by {
                assert forall|i: int| 0 <= i < rest.len() implies rest[i] < 128 by {
                    assert(rest[i] == d[i + w.len()]);
                }
            }
            law_xwrt_round_trip(dict, rest);
            lemma_id_at(dict, k);
            lemma_token(dict, id_at(dict, k), xwrt_coded(dict, rest));
            assert(w + rest =~= d);
        } else {
            let rest = d.drop_first();
            assert(split_common::all_ascii(rest)) by {
                assert forall|i: int| 0 <= i < rest.len() implies rest[i] < 128 by {
                    assert(rest[i] == d[i + 1]);
                }
            }
            law_xwrt_round_trip(dict, rest);
            let t = seq![d[0]] + xwrt_coded(dict, rest);
            assert(t[0] == d[0]);
            assert(t.drop_first() =~= xwrt_coded(dict, rest));
            assert(seq![d[0]] + rest =~= d);
        }
    }
}

proof fn lemma_first_match_is(dict: Seq<Seq<u8>>, d: Seq<u8>, from: int, k: int)
    requires
        0 <= from <= k < tried(dict),
        replaces(dict, d, k),
        forall|j: int| from <= j < k ==> !starts_with(d, #[trigger] dict[j]),
    ensures
        first_match(dict, d, from) == k,
    decreases k - from,
{
    if from < k {
        assert(!starts_with(d, dict[from]));
        lemma_first_match_is(dict, d, from + 1, k);
    }
}

/// A text that starts with a word of the dictionary, the first of those that it starts
/// with, starts with the token of that word behind the transform, and goes on with
/// what follows the word: one byte for the words up to number 126, and three for a
/// later one that is longer than that.
pub proof fn law_words_become_tokens(dict: Seq<Seq<u8>>, d: Seq<u8>, k: int)
    requires
        0 <= k < dict.len() <= 1024,
        0 < dict[k].len() <= d.len(),
        d.take(dict[k].len() as int) == dict[k],
        !breaks_word(d[0]),
        forall|j: int| 0 <= j < k ==> !starts_with(d, #[trigger] dict[j]),
        forall|j: int| k < j < dict.len() ==> #[trigger] dict[j] != dict[k],
    ensures
        k <= 126 ==> xwrt_coded(dict, d) == seq![(0x80 + k) as u8] + xwrt_coded(
            dict,
            d.skip(dict[k].len() as int),
        ),
        k > 126 && dict[k].len() > 3 ==> xwrt_coded(dict, d) == seq![0xFFu8] + bytes::le16(k)
            + xwrt_coded(dict, d.skip(dict[k].len() as int)),
{
    lemma_id_at(dict, k);
    let id = id_at(dict, k);
    if id > k {
        assert(dict[id] != dict[k]);
    }
    if k <= 126 || dict[k].len() > 3 {
        assert(replaces(dict, d, k));
        lemma_first_match_is(dict, d, 0, k);
    }
}

/// A byte that ends words stays as it is, and so does one at which no word of the
/// dictionary stands.
pub proof fn law_other_bytes_stay(dict: Seq<Seq<u8>>, d: Seq<u8>)
    requires
        d.len() > 0,
        breaks_word(d[0]) || forall|j: int|
            0 <= j < dict.len() ==> !starts_with(d, #[trigger] dict[j]),
    ensures
        xwrt_coded(dict, d) == seq![d[0]] + xwrt_coded(dict, d.drop_first()),
{
    if !breaks_word(d[0]) {
        lemma_first_match(dict, d, 0);
    }
}

/// White space, zero bytes and ASCII punctuation end words, and no other byte does.
pub proof fn law_word_breaks(b: u8)
    ensures
        breaks_word(b) <==> b == 0x20 || b == 0x09 || b == 0x0A || b == 0x0D || b == 0 || 0x21 <= b
            <= 0x2F || 0x3A <= b <= 0x40 || 0x5B <= b <= 0x60 || 0x7B <= b <= 0x7E,
{
}

/// A transform never makes a text longer.
pub proof fn law_xwrt_not_longer(dict: Seq<Seq<u8>>, d: Seq<u8>)
    requires
        dict.len() <= MAX_XWRT_WORDS,
    ensures
        xwrt_coded(dict, d).len() <= d.len(),
    decreases d.len(),
{
    if d.len() > 0 {
        let k = first_match(dict, d, 0);
        lemma_first_match(dict, d, 0);
        if !breaks_word(d[0]) && k < tried(dict) && 0 < dict[k].len() <= d.len() {
            law_xwrt_not_longer(dict, d.skip(dict[k].len() as int));
        } else {
            law_xwrt_not_longer(dict, d.drop_first());
        }
    }
}

proof fn lemma_word_bytes_prefix(dict: Seq<Seq<u8>>, i: int, j: int)
    requires
        0 <= i <= j,
    ensures
        word_bytes(dict, i).len() <= word_bytes(dict, j).len(),
        word_bytes(dict, j).take(word_bytes(dict, i).len() as int) == word_bytes(dict, i),
    decreases j - i,
{
    let a = word_bytes(dict, i);
    if i < j {
        lemma_word_bytes_prefix(dict, i, j - 1);
        assert(word_bytes(dict, j).take(a.len() as int) =~= word_bytes(dict, j - 1).take(
            a.len() as int,
        ));
    } else {
        assert(a.take(a.len() as int) =~= a);
    }
}

proof fn lemma_read_words(dict: Seq<Seq<u8>>, d: Seq<u8>, r: int)
    requires
        words_fit(dict),
        words_are_text(dict),
        0 <= r <= dict.len(),
        d.len() == 2 + word_bytes(dict, dict.len() as int).len(),
        d.skip(2) == word_bytes(dict, dict.len() as int),
    ensures
        read_words(d, 2 + word_bytes(dict, r).len() as int, dict.len() - r, dict.take(r)) == Some(
            dict,
        ),
    decreases dict.len() - r,
{
    let n = dict.len() as int;
    if r < n {
        lemma_read_words(dict, d, r + 1);
        lemma_word_bytes_prefix(dict, r + 1, n);
        let body = word_bytes(dict, n);
        let before = word_bytes(dict, r);
        let upto = word_bytes(dict, r + 1);
        let w = dict[r];
        let pos = 2 + before.len() as int;
        assert(w.len() <= 255);
        assert(upto =~= before + seq![w.len() as u8] + w);
        let head = body.take(upto.len() as int);
        assert(d[pos] == d.skip(2)[before.len() as int]);
        assert(head[before.len() as int] == w.len() as u8);
        assert(d[pos] == w.len());
        let sub = d.subrange(pos + 1, pos + 1 + w.len());
        assert forall|t: int| 0 <= t < w.len() implies sub[t] == w[t] by {
            assert(sub[t] == d.skip(2)[before.len() + 1 + t]);
            assert(head[before.len() + 1 + t] == body[before.len() + 1 + t]);
            assert(upto[before.len() + 1 + t] == w[t]);
        }
        assert(sub =~= w);
        assert(as_text(dict[r]) == dict[r]);
        assert(dict.take(r + 1) =~= dict.take(r).push(w));
    } else {
        assert(dict.take(r) =~= dict);
    }
}

/// Parsing a serialized dictionary gives the dictionary back.
pub proof fn law_dict_round_trip(dict: Seq<Seq<u8>>)
    requires
        dict.len() <= MAX_XWRT_WORDS,
        words_fit(dict),
        words_are_text(dict),
    ensures
        parsed_dict(dict_bytes(dict)) == Some(dict),
{
    let d = dict_bytes(dict);
    let n = dict.len() as int;
    assert(tried(dict) == n);
    assert(d.subrange(0, 2) =~= bytes::le16(n));
    bytes::lemma_un_le16(d, 0, n);
    assert(d.skip(2) =~= word_bytes(dict, n));
    assert(dict.take(0) =~= Seq::<Seq<u8>>::empty());
    lemma_read_words(dict, d, 0);
}

/// Number of hash buckets of a scanner.
const BUCKETS: usize = 4096;

/// The bucket of a word.
spec fn bucket_of(w: Seq<u8>) -> int
    decreases w.len(),
{
    if w.len() == 0 {
        0
    } else {
        (bucket_of(w.drop_last()) * 31 + w.last()) % 4096
    }
}

fn word_bucket(w: &[u8]) -> (h: usize)
    ensures
        h == bucket_of(w@),
        h < BUCKETS,
{
    let mut h: usize = 0;
    let mut i: usize = 0;
    assert(w@.take(0) =~= Seq::<u8>::empty());
    while i < w.len()
        invariant
            i <= w@.len(),
            h < BUCKETS,
            h == bucket_of(w@.take(i as int)),
        decreases w@.len() - i,
    {
        assert(w@.take(i + 1).drop_last() =~= w@.take(i as int));
        h = (h * 31 + w[i] as usize) % 4096;
        i = i + 1;
    }
    assert(w@.take(i as int) =~= w@);
    h
}

fn same_bytes(a: &[u8], b: &[u8]) -> (r: bool)
    ensures
        r == (a@ == b@),
{
    if a.len() != b.len() {
        return false;
    }
    let mut i: usize = 0;
    while i < a.len()
        invariant
            i <= a@.len(),
            a@.len() == b@.len(),
            forall|j: int| 0 <= j < i ==> a@[j] == b@[j],
        decreases a@.len() - i,
    {
        if a[i] != b[i] {
            return false;
        }
        i = i + 1;
    }
    assert(a@ =~= b@);
    true
}

/// Scans text for words and counts them.
pub struct WordScanner {
    words: Vec<Vec<u8>>,
    freqs: Vec<usize>,
    buckets: Vec<Vec<usize>>,
}

impl View for WordScanner {
    type V = Seq<WordCount>;

    /// The words in the order of their first occurrence.
    closed spec fn view(&self) -> Seq<WordCount> {
        Seq::new(
            self.words@.len(),
            |i: int| WordCount { word: self.words@[i]@, freq: self.freqs@[i] as int },
        )
    }
}

/// Every word seen has a count of at most `n`.
pub open spec fn freqs_within(seen: Seq<WordCount>, n: int) -> bool {
    forall|i: int| 0 <= i < seen.len() ==> 1 <= (#[trigger] seen[i]).freq <= n
}

impl WordScanner {
    /// The words are distinct pieces of text that fit a dictionary, and each is
    /// found in its bucket.
    pub closed spec fn wf(&self) -> bool {
        &&& self.freqs@.len() == self.words@.len()
        &&& self.buckets@.len() == BUCKETS
        &&& forall|i: int, j: int|
            0 <= i < j < self.words@.len() ==> #[trigger] self.words@[i]@
                != #[trigger] self.words@[j]@
        &&& forall|i: int|
            0 <= i < self.words@.len() ==> self.buckets@[bucket_of(
                #[trigger] self.words@[i]@,
            )]@.contains(i as usize)
        &&& forall|b: int, k: int|
            0 <= b < BUCKETS && 0 <= k < self.buckets@[b]@.len() ==> (
            #[trigger] self.buckets@[b]@[k]) < self.words@.len()
        &&& forall|i: int|
            0 <= i < self.words@.len() ==> 1 <= (
            #[trigger] self.words@[i]@).len() <= MAX_XWRT_WORD_LEN && as_text(self.words@[i]@)
                == self.words@[i]@
    }

    /// A scanner that has seen no word.
    pub fn new() -> (s: Self)
        ensures
            s.wf(),
            s@ == Seq::<WordCount>::empty(),
    {
        let mut buckets: Vec<Vec<usize>> = Vec::new();
        let mut i: usize = 0;
        while i < BUCKETS
            invariant
                i <= BUCKETS,
                buckets@.len() == i,
                forall|b: int| 0 <= b < i ==> (#[trigger] buckets@[b])@.len() == 0,
            decreases BUCKETS - i,
        {
            buckets.push(Vec::new());
            i = i + 1;
        }
        let s = Self { words: Vec::new(), freqs: Vec::new(), buckets };
        assert(s@ =~= Seq::<WordCount>::empty());
        s
    }

    /// The place of a word; the number of words if it is new.
    fn find(&self, w: &[u8]) -> (p: usize)
        requires
            self.wf(),
        ensures
            p == place_of(self@, w@),
            p <= self@.len(),
    {
        let h: usize = word_bucket(w);
        let bucket: &Vec<usize> = &self.buckets[h];
        let mut k: usize = 0;
        while k < bucket.len()
            invariant
                k <= bucket@.len(),
                self.wf(),
                h < BUCKETS,
                h == bucket_of(w@),
                *bucket == self.buckets@[h as int],
                forall|j: int|
                    0 <= j < k ==> self.words@[(#[trigger] bucket@[j]) as int]@ != w@,
            decreases bucket@.len() - k,
        {
            let i: usize = bucket[k];
            assert(self.buckets@[h as int]@[k as int] < self.words@.len());
            if same_bytes(self.words[i].as_slice(), w) {
                proof {
                    lemma_place_is(self@, w@, i as int);
                }
                return i;
            }
            k = k + 1;
        }
        proof {
            assert forall|i: int| 0 <= i < self@.len() implies (#[trigger] self@[i]).word
                != w@ by {
                if self.words@[i]@ == w@ {
                    assert(i < self.words.len());
                    assert(bucket@.contains(i as usize));
                    let j = choose|j: int| 0 <= j < bucket@.len() && bucket@[j] == i as usize;
                    assert(self.words@[bucket@[j] as int]@ != w@);
                }
            }
            lemma_place_none(self@, w@);
        }
        self.words.len()
    }

    /// Counts one occurrence of a word; words that are too short or too long
    /// are left out.
    pub fn add_word(&mut self, word: &[u8])
        requires
            old(self).wf(),
            freqs_within(old(self)@, usize::MAX - 1),
        ensures
            final(self).wf(),
            final(self)@ == counted(old(self)@, word@),
    {
        if word.len() < MIN_XWRT_WORD_LEN || word.len() > MAX_XWRT_WORD_LEN {
            return ;
        }
        let w: Vec<u8> = to_text(word);
        if w.len() > MAX_XWRT_WORD_LEN {
            return ;
        }
        let ghost before = self@;
        let p: usize = self.find(w.as_slice());
        if p < self.words.len() {
            assert(before[p as int].freq <= usize::MAX - 1);
            proof {
                lemma_place_found(before, w@);
            }
            self.freqs[p] = self.freqs[p] + 1;
            assert(self@ =~= counted(before, word@));
        } else {
            let h: usize = word_bucket(w.as_slice());
            let ghost old_words = self.words@;
            let ghost old_buckets = self.buckets@;
            let ghost new_word = w@;
            let place: usize = self.words.len();
            let mut bucket: Vec<usize> = Vec::new();
            let mut k: usize = 0;
            while k < self.buckets[h].len()
                invariant
                    h < BUCKETS,
                    self.buckets@ == old_buckets,
                    old_buckets.len() == BUCKETS,
                    k <= old_buckets[h as int]@.len(),
                    bucket@ =~= old_buckets[h as int]@.take(k as int),
                decreases old_buckets[h as int]@.len() - k,
            {
                bucket.push(self.buckets[h][k]);
                k = k + 1;
            }
            bucket.push(place);
            let ghost grown = bucket@;
            assert(grown =~= old_buckets[h as int]@.push(place));
            self.buckets[h] = bucket;
            self.words.push(w);
            self.freqs.push(1);
            proof {
                lemma_place_absent(before, new_word);
                assert forall|i: int| 0 <= i < self.words@.len() implies self.buckets@[bucket_of(
                    #[trigger] self.words@[i]@,
                )]@.contains(i as usize) by {
                    let b = bucket_of(self.words@[i]@);
                    if i < old_words.len() {
                        assert(self.words@[i] == old_words[i]);
                        assert(old_buckets[b]@.contains(i as usize));
                        let j = choose|j: int|
                            0 <= j < old_buckets[b]@.len() && old_buckets[b]@[j] == i as usize;
                        if b == h {
                            assert(grown[j] == i as usize);
                        }
                    } else {
                        assert(grown[grown.len() - 1] == place);
                    }
                }
                assert forall|b: int, k: int|
                    0 <= b < BUCKETS && 0 <= k < self.buckets@[b]@.len() implies (
                #[trigger] self.buckets@[b]@[k]) < self.words@.len() by {
                    if b == h && k < grown.len() - 1 {
                        assert(grown[k] == old_buckets[h as int]@[k]);
                    }
                }
                assert forall|i: int, j: int| 0 <= i < j < self.words@.len() implies
                    #[trigger] self.words@[i]@ != #[trigger] self.words@[j]@ by {
                    assert(self.words@[i] == old_words[i]);
                    if j < old_words.len() {
                        assert(self.words@[j] == old_words[j]);
                    } else {
                        assert(before[i].word == old_words[i]@);
                    }
                }
            }
            assert(self@ =~= counted(before, word@));
        }
    }

    /// The dictionary of the words seen so far.
    pub fn build_dictionary(&self) -> (dict: XwrtDictionary)
        requires
            self.wf(),
            freqs_within(self@, usize::MAX as int),
        ensures
            dict@ == chosen(self@),
            no_empty_word(dict@),
            words_fit(dict@),
            words_are_text(dict@),
            dict@.len() <= MAX_XWRT_WORDS,
    {
        let ghost seen = self@;
        let mut keys: Vec<(usize, usize)> = Vec::new();
        let mut i: usize = 0;
        while i < self.words.len()
            invariant
                self.wf(),
                seen == self@,
                i <= self.words@.len(),
                keys@ =~= rank_keys(seen).take(i as int),
            decreases self.words@.len() - i,
        {
            keys.push((self.freqs[i], i));
            i = i + 1;
        }
        assert(keys@ =~= rank_keys(seen));
        let ranks = sorting::sort_by_rank(&keys);
        let ghost order = ranks@;
        proof {
            sorting::lemma_ranked(rank_keys(seen));
            assert forall|k: int| 0 <= k < order.len() implies (#[trigger] order[k]).1
                < seen.len() by {
                assert(order.contains(order[k]));
                assert(rank_keys(seen).contains(order[k]));
            }
        }
        let mut words: Vec<Vec<u8>> = Vec::new();
        let k: usize = if ranks.len() <= XWRT_SINGLE_MAX_ID + 1 {
            ranks.len()
        } else {
            XWRT_SINGLE_MAX_ID + 1
        };
        let ghost head = Seq::new(k as nat, |i: int| seen[order[i].1 as int].word);
        let mut i: usize = 0;
        while i < k
            invariant
                i <= k <= order.len(),
                order == ranks@,
                self.wf(),
                seen == self@,
                forall|j: int| 0 <= j < order.len() ==> (#[trigger] order[j]).1 < seen.len(),
                head == Seq::new(k as nat, |i: int| seen[order[i].1 as int].word),
                word_views(words@) =~= head.take(i as int),
            decreases k - i,
        {
            let p: usize = ranks[i].1;
            assert(order[i as int].1 < seen.len());
            let ghost before = word_views(words@);
            words.push(vstd::slice::slice_to_vec(self.words[p].as_slice()));
            assert(word_views(words@) =~= before.push(seen[p as int].word));
            i = i + 1;
        }
        assert(head.take(k as int) =~= head);
        let ghost goal = chosen(seen);
        assert(word_views(words@) + long_words(seen, order.skip(k as int), MAX_XWRT_WORDS - k)
            =~= goal);
        while i < ranks.len() && words.len() < MAX_XWRT_WORDS
            invariant
                k <= i <= order.len(),
                order == ranks@,
                self.wf(),
                seen == self@,
                words@.len() <= MAX_XWRT_WORDS,
                forall|j: int| 0 <= j < order.len() ==> (#[trigger] order[j]).1 < seen.len(),
                word_views(words@) + long_words(
                    seen,
                    order.skip(i as int),
                    MAX_XWRT_WORDS - words@.len(),
                ) =~= goal,
            decreases order.len() - i,
        {
            let p: usize = ranks[i].1;
            let ghost rest = order.skip(i as int);
            assert(rest[0] == order[i as int]);
            assert(order[i as int].1 < seen.len());
            assert(rest.drop_first() =~= order.skip(i + 1));
            assert(seen[p as int].word == self.words@[p as int]@);
            let ghost before = word_views(words@);
            if self.words[p].len() > ESC_TOKEN_LEN {
                words.push(vstd::slice::slice_to_vec(self.words[p].as_slice()));
                assert(word_views(words@) =~= before.push(seen[p as int].word));
            }
            i = i + 1;
        }
        assert(word_views(words@) =~= goal);
        proof {
            lemma_chosen_len(seen);
            assert forall|j: int| 0 <= j < goal.len() implies (#[trigger] goal[j]).len() > 0
                && goal[j].len() <= MAX_XWRT_WORD_LEN && as_text(goal[j]) == goal[j] by {
                lemma_chosen_from(seen, order, j);
                let p = choose|p: int| 0 <= p < seen.len() && goal[j] == (#[trigger] seen[p]).word;
                assert(self.words@[p]@ == seen[p].word);
            }
        }
        XwrtDictionary::from_words(words)
    }
}

/// The contents of a list of words.
pub open spec fn word_views(v: Seq<Vec<u8>>) -> Seq<Seq<u8>> {
    Seq::new(v.len(), |i: int| v[i]@)
}

proof fn lemma_place_is(seen: Seq<WordCount>, w: Seq<u8>, i: int)
    requires
        0 <= i < seen.len(),
        seen[i].word == w,
        forall|a: int, b: int|
            0 <= a < b < seen.len() ==> (#[trigger] seen[a]).word != (#[trigger] seen[b]).word,
    ensures
        place_of(seen, w) == i,
    decreases seen.len(),
{
    if i > 0 {
        let t = seen.drop_first();
        assert(seen[0].word != seen[i].word);
        assert forall|a: int, b: int| 0 <= a < b < t.len() implies (#[trigger] t[a]).word != (
        #[trigger] t[b]).word by {
            assert(t[a] == seen[a + 1] && t[b] == seen[b + 1]);
        }
        lemma_place_is(t, w, i - 1);
    }
}

proof fn lemma_place_none(seen: Seq<WordCount>, w: Seq<u8>)
    requires
        forall|i: int| 0 <= i < seen.len() ==> (#[trigger] seen[i]).word != w,
    ensures
        place_of(seen, w) == seen.len(),
    decreases seen.len(),
{
    if seen.len() > 0 {
        let t = seen.drop_first();
        assert(seen[0].word != w);
        assert forall|i: int| 0 <= i < t.len() implies (#[trigger] t[i]).word != w by {
            assert(t[i] == seen[i + 1]);
        }
        lemma_place_none(t, w);
    }
}

proof fn lemma_place_found(seen: Seq<WordCount>, w: Seq<u8>)
    ensures
        0 <= place_of(seen, w) <= seen.len(),
        place_of(seen, w) < seen.len() ==> seen[place_of(seen, w)].word == w,
    decreases seen.len(),
{
    if seen.len() > 0 && seen[0].word != w {
        lemma_place_found(seen.drop_first(), w);
    }
}

proof fn lemma_place_absent(seen: Seq<WordCount>, w: Seq<u8>)
    requires
        place_of(seen, w) >= seen.len(),
    ensures
        forall|i: int| 0 <= i < seen.len() ==> (#[trigger] seen[i]).word != w,
    decreases seen.len(),
{
    if seen.len() > 0 {
        let t = seen.drop_first();
        lemma_place_absent(t, w);
        assert forall|i: int| 0 <= i < seen.len() implies (#[trigger] seen[i]).word != w by {
            if i > 0 {
                assert(t[i - 1] == seen[i]);
            }
        }
    }
}

proof fn lemma_long_words_from(
    seen: Seq<WordCount>,
    ranks: Seq<(usize, usize)>,
    room: int,
    j: int,
)
    requires
        0 <= j < long_words(seen, ranks, room).len(),
        forall|k: int| 0 <= k < ranks.len() ==> (#[trigger] ranks[k]).1 < seen.len(),
    ensures
        exists|p: int|
            0 <= p < seen.len() && long_words(seen, ranks, room)[j] == (#[trigger] seen[p]).word,
    decreases ranks.len(),
{
    let t = ranks.drop_first();
    assert forall|k: int| 0 <= k < t.len() implies (#[trigger] t[k]).1 < seen.len() by {
        assert(t[k] == ranks[k + 1]);
    }
    let p = ranks[0].1 as int;
    assert(ranks[0].1 < seen.len());
    let w = seen[p].word;
    if w.len() > ESC_TOKEN_LEN {
        if j > 0 {
            assert(long_words(seen, ranks, room)[j] == long_words(seen, t, room - 1)[j - 1]);
            lemma_long_words_from(seen, t, room - 1, j - 1);
        }
    } else {
        lemma_long_words_from(seen, t, room, j);
    }
}

proof fn lemma_long_words_len(seen: Seq<WordCount>, ranks: Seq<(usize, usize)>, room: int)
    requires
        0 <= room,
    ensures
        long_words(seen, ranks, room).len() <= room,
    decreases ranks.len(),
{
    if ranks.len() > 0 && room > 0 {
        lemma_long_words_len(seen, ranks.drop_first(), room);
        lemma_long_words_len(seen, ranks.drop_first(), room - 1);
    }
}

/// Every word of a dictionary is one of those seen.
proof fn lemma_chosen_from(seen: Seq<WordCount>, order: Seq<(usize, usize)>, j: int)
    requires
        order == sorting::ranked(rank_keys(seen)),
        forall|k: int| 0 <= k < order.len() ==> (#[trigger] order[k]).1 < seen.len(),
        0 <= j < chosen(seen).len(),
    ensures
        exists|p: int| 0 <= p < seen.len() && chosen(seen)[j] == (#[trigger] seen[p]).word,
{
    let k = single_slots(order.len() as int);
    if j < k {
        assert(order[j].1 < seen.len());
        assert(chosen(seen)[j] == seen[order[j].1 as int].word);
    } else {
        let rest = order.skip(k);
        assert forall|i: int| 0 <= i < rest.len() implies (#[trigger] rest[i]).1 < seen.len() by {
            assert(rest[i] == order[i + k]);
        }
        lemma_long_words_from(seen, rest, MAX_XWRT_WORDS - k, j - k);
        assert(chosen(seen)[j] == long_words(seen, rest, MAX_XWRT_WORDS - k)[j - k]);
    }
}

proof fn lemma_chosen_len(seen: Seq<WordCount>)
    ensures
        chosen(seen).len() <= MAX_XWRT_WORDS,
{
    let order = sorting::ranked(rank_keys(seen));
    let k = single_slots(order.len() as int);
    lemma_long_words_len(seen, order.skip(k), MAX_XWRT_WORDS - k);
}

/// A dictionary of words; the place of a word is its token's id.
pub struct XwrtDictionary {
    words: Vec<Vec<u8>>,
    ids: Vec<usize>,
}

impl View for XwrtDictionary {
    type V = Seq<Seq<u8>>;

    /// The words in the order of their ids.
    closed spec fn view(&self) -> Seq<Seq<u8>> {
        word_views(self.words@)
    }
}

impl XwrtDictionary {
    /// The recorded ids are those of the words.
    #[verifier::type_invariant]
    spec fn ids_recorded(self) -> bool {
        &&& self.ids@.len() == self.words@.len()
        &&& forall|k: int|
            0 <= k < self.words@.len() ==> #[trigger] self.ids@[k] == id_at(
                word_views(self.words@),
                k,
            )
    }

    /// A dictionary with the given words.
    fn from_words(words: Vec<Vec<u8>>) -> (dict: Self)
        ensures
            dict@ == word_views(words@),
    {
        let ghost w = word_views(words@);
        let mut ids: Vec<usize> = Vec::new();
        let mut k: usize = 0;
        while k < words.len()
            invariant
                k <= words@.len(),
                w == word_views(words@),
                ids@.len() == k,
                forall|j: int| 0 <= j < k ==> #[trigger] ids@[j] == id_at(w, j),
            decreases words@.len() - k,
        {
            let mut n: usize = words.len();
            proof {
                lemma_id_at(w, k as int);
            }
            assert(w[k as int] == words@[k as int]@);
            while !same_bytes(words[n - 1].as_slice(), words[k].as_slice())
                invariant
                    k < n <= words@.len(),
                    w == word_views(words@),
                    w[k as int] == words@[k as int]@,
                    id_at(w, k as int) == last_place(w, w[k as int], n as int),
                    last_place(w, w[k as int], n as int) >= k,
                decreases n,
            {
                assert(w[n - 1] == words@[n - 1]@);
                proof {
                    lemma_last_place(w, w[k as int], n - 1);
                }
                n = n - 1;
            }
            assert(w[n - 1] == words@[n - 1]@);
            ids.push(n - 1);
            k = k + 1;
        }
        XwrtDictionary { words, ids }
    }

    /// The words in the order of their ids.
    pub fn id_to_word(&self) -> (w: &Vec<Vec<u8>>)
        ensures
            word_views(w@) == self@,
    {
        &self.words
    }

    /// Builds the dictionary of a text.
    pub fn build_from_data(data: &[u8]) -> (dict: Self)
        ensures
            dict@ == dictionary_of(data@),
            no_empty_word(dict@),
            words_fit(dict@),
            words_are_text(dict@),
            dict@.len() <= MAX_XWRT_WORDS,
    {
        let scanner = scan_text(data);
        scanner.build_dictionary()
    }

    /// Applies the transform to `data`; of the words at a place, the first that
    /// does not expand the text is taken.
    pub fn transform(&self, data: &[u8]) -> (out: Vec<u8>)
        requires
            no_endless_word(self@),
            self@.len() <= 65536,
        ensures
            out@ == xwrt_coded(self@, data@),
    {
        proof {
            use_type_invariant(&*self);
        }
        let ghost dict = self@;
        let count: usize = if self.words.len() < MAX_XWRT_WORDS {
            self.words.len()
        } else {
            MAX_XWRT_WORDS
        };
        let mut out: Vec<u8> = Vec::new();
        let mut i: usize = 0;
        assert(data@.skip(0) =~= data@);
        while i < data.len()
            invariant
                i <= data@.len(),
                dict == self@,
                dict == word_views(self.words@),
                dict.len() <= 65536,
                count == tried(dict),
                no_endless_word(dict),
                self.ids@.len() == dict.len(),
                forall|k: int| 0 <= k < dict.len() ==> #[trigger] self.ids@[k] == id_at(dict, k),
                out@ + xwrt_coded(dict, data@.skip(i as int)) =~= xwrt_coded(dict, data@),
            decreases data@.len() - i,
        {
            let ghost rest = data@.skip(i as int);
            let ghost before = out@;
            let b: u8 = data[i];
            assert(rest[0] == b);
            assert(rest.drop_first() =~= data@.skip(i + 1));
            if is_word_break(b) {
                out.push(b);
                i = i + 1;
                assert(out@ =~= before + seq![b]);
            } else {
                let mut k: usize = 0;
                let mut found: bool = false;
                while k < count && !found
                    invariant
                        k <= count,
                        i < data@.len(),
                        dict == word_views(self.words@),
                        count == tried(dict),
                        rest == data@.skip(i as int),
                        self.ids@.len() == dict.len(),
                        forall|j: int|
                            0 <= j < dict.len() ==> #[trigger] self.ids@[j] == id_at(dict, j),
                        first_match(dict, rest, 0) == first_match(dict, rest, k as int),
                        found ==> k < count && replaces(dict, rest, k as int),
                    decreases
                        count - k,
                        if found {
                            0int
                        } else {
                            1
                        },
                {
                    assert(dict[k as int] == self.words@[k as int]@);
                    assert(self.ids@[k as int] == id_at(dict, k as int));
                    if word_at(data, i, self.words[k].as_slice()) && (self.ids[k]
                        <= XWRT_SINGLE_MAX_ID || self.words[k].len() > ESC_TOKEN_LEN) {
                        found = true;
                    } else {
                        k = k + 1;
                    }
                }
                if found {
                    assert(dict[k as int] == self.words@[k as int]@);
                    assert(self.ids@[k as int] == id_at(dict, k as int));
                    proof {
                        lemma_id_at(dict, k as int);
                    }
                    let len: usize = self.words[k].len();
                    assert(dict[k as int].len() > 0);
                    emit_xwrt_token(&mut out, self.ids[k]);
                    assert(rest.skip(len as int) =~= data@.skip(i + len));
                    i = i + len;
                } else {
                    out.push(b);
                    i = i + 1;
                    assert(out@ =~= before + seq![b]);
                }
            }
            assert(out@ + xwrt_coded(dict, data@.skip(i as int)) =~= before + xwrt_coded(
                dict,
                rest,
            ));
        }
        assert(data@.skip(i as int).len() == 0);
        out
    }

    /// Builds the dictionary of the literal words of a transformed text, in
    /// serialized form.
    pub fn from_transform(data: &[u8]) -> (out: Vec<u8>)
        ensures
            out@ == dict_bytes(literal_dictionary_of(data@)),
    {
        let scanner = scan_literals(data);
        let dict = scanner.build_dictionary();
        dict.to_bytes()
    }

    /// Serializes the dictionary: `[count:u16][len:u8][bytes...]...`, at most
    /// `MAX_XWRT_WORDS` words.
    pub fn to_bytes(&self) -> (out: Vec<u8>)
        requires
            words_fit(self@),
        ensures
            out@ == dict_bytes(self@),
    {
        let ghost dict = self@;
        let n: usize = if self.words.len() < MAX_XWRT_WORDS {
            self.words.len()
        } else {
            MAX_XWRT_WORDS
        };
        let mut out: Vec<u8> = Vec::new();
        bytes::push_u16(&mut out, n as u16);
        let mut i: usize = 0;
        assert(out@ =~= bytes::le16(n as int) + word_bytes(dict, 0));
        while i < n
            invariant
                i <= n <= self.words@.len(),
                dict == word_views(self.words@),
                words_fit(dict),
                out@ == bytes::le16(n as int) + word_bytes(dict, i as int),
            decreases n - i,
        {
            assert(dict[i as int] == self.words@[i as int]@);
            assert(dict[i as int].len() <= MAX_XWRT_WORD_LEN);
            out.push(self.words[i].len() as u8);
            bytes::push_slice(&mut out, self.words[i].as_slice());
            i = i + 1;
            assert(out@ =~= bytes::le16(n as int) + word_bytes(dict, i as int));
        }
        out
    }

    /// Parses a serialized dictionary.
    pub fn from_bytes(data: &[u8]) -> (r: Option<Self>)
        ensures
            r is Some <==> parsed_dict(data@) is Some,
            r matches Some(dict) ==> parsed_dict(data@) == Some(dict@),
    {
        if data.len() < 2 {
            return None;
        }
        let n: usize = bytes::get_u16(data, 0) as usize;
        if n > MAX_XWRT_WORDS {
            return None;
        }
        let ghost goal = parsed_dict(data@);
        let mut words: Vec<Vec<u8>> = Vec::new();
        let mut pos: usize = 2;
        let mut left: usize = n;
        assert(word_views(words@) =~= Seq::empty());
        while left > 0
            invariant
                goal == parsed_dict(data@),
                goal == read_words(data@, pos as int, left as int, word_views(words@)),
                2 <= pos <= data@.len(),
            decreases left,
        {
            if pos >= data.len() {
                return None;
            }
            let len: usize = data[pos] as usize;
            if data.len() - pos - 1 < len {
                return None;
            }
            let raw: &[u8] = vstd::slice::slice_subrange(data, pos + 1, pos + 1 + len);
            let word: Vec<u8> = to_text(raw);
            let ghost before = word_views(words@);
            let ghost w = word@;
            words.push(word);
            assert(word_views(words@) =~= before.push(w));
            pos = pos + 1 + len;
            left = left - 1;
        }
        Some(XwrtDictionary::from_words(words))
    }
}

/// Whether `w` stands in `data` at `i`.
fn word_at(data: &[u8], i: usize, w: &[u8]) -> (r: bool)
    requires
        i <= data@.len(),
    ensures
        r == starts_with(data@.skip(i as int), w@),
{
    if data.len() - i < w.len() {
        return false;
    }
    let part: &[u8] = vstd::slice::slice_subrange(data, i, i + w.len());
    assert(part@ =~= data@.skip(i as int).take(w@.len() as int));
    same_bytes(part, w)
}

/// Appends the token of an id.
fn emit_xwrt_token(out: &mut Vec<u8>, id: usize)
    requires
        id < 65536,
    ensures
        final(out)@ == old(out)@ + token(id as int),
{
    let ghost before = out@;
    if id <= XWRT_SINGLE_MAX_ID {
        out.push(0x80 + id as u8);
    } else {
        out.push(XWRT_ESC);
        bytes::push_u16(out, id as u16);
    }
    assert(out@ =~= before + token(id as int));
}

/// Parses the token at `i`: its id and its length.
pub fn parse_xwrt_token(data: &[u8], i: usize) -> (r: Option<(usize, usize)>)
    ensures
        i >= data@.len() ==> r is None,
        i < data@.len() ==> (r is Some <==> token_id(data@.skip(i as int)) is Some),
        r matches Some((id, n)) ==> {
            &&& token_id(data@.skip(i as int)) == Some(id as int)
            &&& n == token_len(data@.skip(i as int))
            &&& i + n <= data@.len()
        },
{
    if i >= data.len() {
        return None;
    }
    let ghost d = data@.skip(i as int);
    assert(d[0] == data@[i as int]);
    if data[i] < 0x80 {
        return None;
    }
    if data[i] == XWRT_ESC {
        if data.len() - i < ESC_TOKEN_LEN {
            return None;
        }
        assert(d[1] == data@[i + 1] && d[2] == data@[i + 2]);
        Some((bytes::get_u16(data, i + 1) as usize, ESC_TOKEN_LEN))
    } else {
        Some(((data[i] - 0x80) as usize, 1))
    }
}

/// The place behind the token at `i`; a cut escape counts alone.
fn skip_xwrt_token(data: &[u8], i: usize) -> (next: usize)
    requires
        i < data@.len(),
        data@[i as int] >= 0x80,
    ensures
        next == i + token_len(data@.skip(i as int)),
        i < next <= data@.len(),
{
    assert(i < data.len());
    assert(data@.skip(i as int)[0] == data@[i as int]);
    match parse_xwrt_token(data, i) {
        Some((_, n)) => i + n,
        None => i + 1,
    }
}

proof fn lemma_counted_freqs(seen: Seq<WordCount>, raw: Seq<u8>, n: int)
    requires
        freqs_within(seen, n),
        0 <= n,
    ensures
        freqs_within(counted(seen, raw), n + 1),
{
    lemma_place_found(seen, as_text(raw));
    let next = counted(seen, raw);
    assert forall|i: int| 0 <= i < next.len() implies 1 <= (#[trigger] next[i]).freq <= n + 1 by {
        if i < seen.len() {
            assert(1 <= seen[i].freq <= n);
        }
    }
}

proof fn lemma_word_run(d: Seq<u8>)
    ensures
        0 <= word_run(d) <= d.len(),
        0 <= literal_run(d) <= d.len(),
    decreases d.len(),
{
    if d.len() > 0 {
        lemma_word_run(d.drop_first());
    }
}

/// Words that stand for themselves and fit a dictionary.
spec fn good_words(seen: Seq<WordCount>) -> bool {
    forall|i: int|
        0 <= i < seen.len() ==> {
            let w = (#[trigger] seen[i]).word;
            split_common::all_ascii(w) && 0 < w.len() <= MAX_XWRT_WORD_LEN
        }
}

proof fn lemma_counted_good(seen: Seq<WordCount>, raws: Seq<Seq<u8>>)
    requires
        good_words(seen),
        forall|i: int| 0 <= i < raws.len() ==> split_common::all_ascii(#[trigger] raws[i]),
    ensures
        good_words(counted_all(seen, raws)),
        counted_all(seen, raws).len() <= seen.len() + raws.len(),
    decreases raws.len(),
{
    if raws.len() > 0 {
        let next = counted(seen, raws[0]);
        lemma_place_found(seen, as_text(raws[0]));
        assert(split_common::all_ascii(raws[0]));
        assert forall|i: int| 0 <= i < next.len() implies split_common::all_ascii(
            (#[trigger] next[i]).word,
        ) && 0 < next[i].word.len() <= MAX_XWRT_WORD_LEN by {
            if i < seen.len() {
                assert(split_common::all_ascii(seen[i].word));
            }
        }
        let rest = raws.drop_first();
        assert forall|i: int| 0 <= i < rest.len() implies split_common::all_ascii(
            #[trigger] rest[i],
        ) by {
            assert(rest[i] == raws[i + 1]);
        }
        lemma_counted_good(next, rest);
    }
}

proof fn lemma_words_ascii(d: Seq<u8>)
    requires
        split_common::all_ascii(d),
    ensures
        forall|i: int|
            0 <= i < words_in(d).len() ==> split_common::all_ascii(#[trigger] words_in(d)[i]),
        words_in(d).len() <= d.len(),
    decreases d.len(),
{
    if d.len() > 0 {
        let k = word_run(d);
        lemma_word_run(d);
        if 0 < k {
            let rest = d.skip(k);
            assert(split_common::all_ascii(rest));
            assert(split_common::all_ascii(d.take(k)));
            lemma_words_ascii(rest);
            assert forall|i: int| 0 <= i < words_in(d).len() implies split_common::all_ascii(
                #[trigger] words_in(d)[i],
            ) by {
                if i > 0 {
                    assert(words_in(d)[i] == words_in(rest)[i - 1]);
                }
            }
        } else {
            assert(split_common::all_ascii(d.drop_first()));
            lemma_words_ascii(d.drop_first());
        }
    }
}

proof fn lemma_word_run_of(w: Seq<u8>, r: Seq<u8>)
    requires
        forall|i: int| 0 <= i < w.len() ==> !breaks_word(#[trigger] w[i]),
        r.len() > 0 ==> breaks_word(r[0]),
    ensures
        word_run(w + r) == w.len(),
    decreases w.len(),
{
    let d = w + r;
    if w.len() > 0 {
        let rest = w.drop_first();
        assert(d[0] == w[0]);
        assert(d.drop_first() =~= rest + r);
        assert forall|i: int| 0 <= i < rest.len() implies !breaks_word(#[trigger] rest[i]) by {
            assert(w[i + 1] == rest[i]);
        }
        lemma_word_run_of(rest, r);
    } else {
        assert(d =~= r);
    }
}

/// The words of a text are what stands between the bytes that end words.
pub proof fn law_words_of_text(w: Seq<u8>, r: Seq<u8>)
    requires
        forall|i: int| 0 <= i < w.len() ==> !breaks_word(#[trigger] w[i]),
        r.len() > 0 ==> breaks_word(r[0]),
    ensures
        w.len() > 0 ==> words_in(w + r) == seq![w] + words_in(r),
        r.len() > 0 ==> words_in(r) == words_in(r.drop_first()),
{
    lemma_word_run_of(w, r);
    assert((w + r).take(w.len() as int) =~= w);
    assert((w + r).skip(w.len() as int) =~= r);
}

/// How many of the raw words are kept and read `w`: a word has 2 to 255 bytes, and its
/// text not more.
pub open spec fn times_seen(raws: Seq<Seq<u8>>, w: Seq<u8>) -> int
    decreases raws.len(),
{
    if raws.len() == 0 {
        0
    } else {
        (if 2 <= raws[0].len() <= 255 && as_text(raws[0]).len() <= 255 && as_text(raws[0]) == w {
            1int
        } else {
            0
        }) + times_seen(raws.drop_first(), w)
    }
}

/// No word stands twice among those seen.
pub open spec fn distinct_words(seen: Seq<WordCount>) -> bool {
    forall|a: int, b: int|
        0 <= a < b < seen.len() ==> (#[trigger] seen[a]).word != (#[trigger] seen[b]).word
}

/// How often a word was seen, 0 if it was not.
pub open spec fn freq_in(seen: Seq<WordCount>, w: Seq<u8>) -> int {
    let p = place_of(seen, w);
    if p < seen.len() {
        seen[p].freq
    } else {
        0
    }
}

proof fn lemma_counted_one(seen: Seq<WordCount>, raw: Seq<u8>, w: Seq<u8>)
    requires
        distinct_words(seen),
    ensures
        distinct_words(counted(seen, raw)),
        freq_in(counted(seen, raw), w) == freq_in(seen, w) + if is_kept(raw) && as_text(raw) == w {
            1int
        } else {
            0
        },
{
    if is_kept(raw) {
        let x = as_text(raw);
        let p = place_of(seen, x);
        let next = counted(seen, raw);
        lemma_place_found(seen, x);
        if p >= seen.len() {
            lemma_place_absent(seen, x);
        }
        assert forall|a: int, b: int| 0 <= a < b < next.len() implies (#[trigger] next[a]).word != (
        #[trigger] next[b]).word by {
            if b < seen.len() {
                assert(seen[a].word != seen[b].word);
            } else {
                assert(seen[a].word != x);
            }
        }
        let q = place_of(seen, w);
        lemma_place_found(seen, w);
        if q < seen.len() {
            assert(next[q].word == w) by {
                if q == p {
                    assert(x == w);
                }
            }
            lemma_place_is(next, w, q);
            if w == x {
                assert(p == q);
            }
        } else {
            lemma_place_absent(seen, w);
            if w == x {
                assert(next[seen.len() as int].word == w);
                lemma_place_is(next, w, seen.len() as int);
            } else {
                assert forall|i: int| 0 <= i < next.len() implies (#[trigger] next[i]).word
                    != w by {
                    if i < seen.len() {
                        assert(seen[i].word != w);
                    }
                }
                lemma_place_none(next, w);
            }
        }
    }
}

/// Every word is counted as often as it stands in the text, once each.
pub proof fn law_words_are_counted(seen: Seq<WordCount>, raws: Seq<Seq<u8>>, w: Seq<u8>)
    requires
        distinct_words(seen),
    ensures
        distinct_words(counted_all(seen, raws)),
        freq_in(counted_all(seen, raws), w) == freq_in(seen, w) + times_seen(raws, w),
    decreases raws.len(),
{
    if raws.len() > 0 {
        lemma_counted_one(seen, raws[0], w);
        law_words_are_counted(counted(seen, raws[0]), raws.drop_first(), w);
    }
}

proof fn lemma_freqs_small(seen: Seq<WordCount>, raws: Seq<Seq<u8>>, n: int)
    requires
        freqs_within(seen, n),
        0 <= n,
    ensures
        freqs_within(counted_all(seen, raws), n + raws.len()),
    decreases raws.len(),
{
    if raws.len() > 0 {
        lemma_counted_freqs(seen, raws[0], n);
        lemma_freqs_small(counted(seen, raws[0]), raws.drop_first(), n + 1);
    }
}

proof fn lemma_words_few(d: Seq<u8>)
    ensures
        words_in(d).len() <= d.len(),
    decreases d.len(),
{
    if d.len() > 0 {
        let k = word_run(d);
        lemma_word_run(d);
        if 0 < k {
            lemma_words_few(d.skip(k));
        } else {
            lemma_words_few(d.drop_first());
        }
    }
}

/// The ranks of two words behind the single-byte tokens, the earlier one first.
proof fn lemma_long_words_order(
    seen: Seq<WordCount>,
    ranks: Seq<(usize, usize)>,
    room: int,
    i: int,
    j: int,
) -> (r: (int, int))
    requires
        0 <= i <= j < long_words(seen, ranks, room).len(),
    ensures
        0 <= r.0 <= r.1 < ranks.len(),
        long_words(seen, ranks, room)[i] == seen[ranks[r.0].1 as int].word,
        long_words(seen, ranks, room)[j] == seen[ranks[r.1].1 as int].word,
    decreases ranks.len(),
{
    let t = ranks.drop_first();
    let w = seen[ranks[0].1 as int].word;
    if w.len() > ESC_TOKEN_LEN {
        if j == 0 {
            (0, 0)
        } else {
            let r = lemma_long_words_order(
                seen,
                t,
                room - 1,
                if i == 0 {
                    0
                } else {
                    i - 1
                },
                j - 1,
            );
            assert(t[r.0] == ranks[r.0 + 1] && t[r.1] == ranks[r.1 + 1]);
            if i == 0 {
                (0, r.1 + 1)
            } else {
                (r.0 + 1, r.1 + 1)
            }
        }
    } else {
        let r = lemma_long_words_order(seen, t, room, i, j);
        assert(t[r.0] == ranks[r.0 + 1] && t[r.1] == ranks[r.1 + 1]);
        (r.0 + 1, r.1 + 1)
    }
}

/// The ranks of two dictionary words, the earlier one first.
proof fn lemma_chosen_order(seen: Seq<WordCount>, i: int, j: int) -> (r: (int, int))
    requires
        0 <= i <= j < chosen(seen).len(),
    ensures
        0 <= r.0 <= r.1 < sorting::ranked(rank_keys(seen)).len(),
        chosen(seen)[i] == seen[sorting::ranked(rank_keys(seen))[r.0].1 as int].word,
        chosen(seen)[j] == seen[sorting::ranked(rank_keys(seen))[r.1].1 as int].word,
{
    let ranks = sorting::ranked(rank_keys(seen));
    let k = single_slots(ranks.len() as int);
    let rest = ranks.skip(k);
    let room = MAX_XWRT_WORDS - k;
    if j < k {
        (i, j)
    } else {
        let r = lemma_long_words_order(
            seen,
            rest,
            room,
            if i < k {
                0
            } else {
                i - k
            },
            j - k,
        );
        assert(rest[r.0] == ranks[r.0 + k] && rest[r.1] == ranks[r.1 + k]);
        if i < k {
            (i, r.1 + k)
        } else {
            (r.0 + k, r.1 + k)
        }
    }
}

proof fn lemma_rank_of(d: Seq<u8>, q: int)
    requires
        d.len() <= u32::MAX,
        0 <= q < sorting::ranked(rank_keys(counted_all(Seq::empty(), words_in(d)))).len(),
    ensures
        ({
            let seen = counted_all(Seq::empty(), words_in(d));
            let r = sorting::ranked(rank_keys(seen))[q];
            &&& 0 <= r.1 < seen.len()
            &&& r.0 == seen[r.1 as int].freq
            &&& seen[r.1 as int].freq == times_seen(words_in(d), seen[r.1 as int].word)
        }),
{
    let raws = words_in(d);
    let seen = counted_all(Seq::empty(), raws);
    let keys = rank_keys(seen);
    let ranks = sorting::ranked(keys);
    sorting::law_ranked(keys);
    assert(ranks.contains(ranks[q]));
    assert(keys.contains(ranks[q]));
    let i = choose|i: int| 0 <= i < keys.len() && keys[i] == ranks[q];
    lemma_words_few(d);
    lemma_freqs_small(Seq::empty(), raws, 0);
    lemma_seen_few(Seq::empty(), raws);
    assert(1 <= seen[i].freq <= raws.len());
    let w = seen[i].word;
    law_words_are_counted(Seq::empty(), raws, w);
    lemma_place_is(seen, w, i);
    assert(freq_in(Seq::empty(), w) == 0);
}

proof fn lemma_seen_few(seen: Seq<WordCount>, raws: Seq<Seq<u8>>)
    ensures
        counted_all(seen, raws).len() <= seen.len() + raws.len(),
    decreases raws.len(),
{
    if raws.len() > 0 {
        lemma_place_found(seen, as_text(raws[0]));
        lemma_seen_few(counted(seen, raws[0]), raws.drop_first());
    }
}

/// The dictionary of a text lists its words from the most frequent one down: no word
/// stands in the text more often than one before it in the dictionary.
pub proof fn law_frequent_words_first(d: Seq<u8>, i: int, j: int)
    requires
        d.len() <= u32::MAX,
        0 <= i < j < dictionary_of(d).len(),
    ensures
        times_seen(words_in(d), dictionary_of(d)[i]) >= times_seen(
            words_in(d),
            dictionary_of(d)[j],
        ),
        times_seen(words_in(d), dictionary_of(d)[j]) >= 1,
{
    let raws = words_in(d);
    let seen = counted_all(Seq::empty(), raws);
    let ranks = sorting::ranked(rank_keys(seen));
    let dict = dictionary_of(d);
    let (q, p) = lemma_chosen_order(seen, i, j);
    sorting::law_ranked(rank_keys(seen));
    lemma_rank_of(d, q);
    lemma_rank_of(d, p);
    lemma_words_few(d);
    lemma_freqs_small(Seq::empty(), raws, 0);
    assert(seen[ranks[p].1 as int].freq >= 1);
}

/// A word that stands in the text is left out of the dictionary only where 127 words
/// that stand there at least as often are in it.
pub proof fn law_words_left_out(d: Seq<u8>, w: Seq<u8>)
    requires
        d.len() <= u32::MAX,
        times_seen(words_in(d), w) >= 1,
        !dictionary_of(d).contains(w),
    ensures
        dictionary_of(d).len() >= 127,
        forall|i: int|
            0 <= i < 127 ==> times_seen(words_in(d), #[trigger] dictionary_of(d)[i]) >= times_seen(
                words_in(d),
                w,
            ),
{
    let raws = words_in(d);
    let seen = counted_all(Seq::empty(), raws);
    let keys = rank_keys(seen);
    let ranks = sorting::ranked(keys);
    let dict = dictionary_of(d);
    law_words_are_counted(Seq::empty(), raws, w);
    assert(freq_in(Seq::empty(), w) == 0);
    let p = place_of(seen, w);
    lemma_place_found(seen, w);
    sorting::law_ranked(keys);
    lemma_words_few(d);
    lemma_freqs_small(Seq::empty(), raws, 0);
    lemma_seen_few(Seq::empty(), raws);
    assert(keys[p] == keys[p]);
    assert(keys.contains(keys[p]));
    assert(ranks.contains(keys[p]));
    let q = choose|q: int| 0 <= q < ranks.len() && ranks[q] == keys[p];
    assert(1 <= seen[p].freq <= raws.len());
    let k = single_slots(ranks.len() as int);
    if q < k {
        assert(dict[q] == seen[ranks[q].1 as int].word);
        assert(dict[q] == w);
    }
    assert forall|i: int| 0 <= i < 127 implies times_seen(raws, #[trigger] dict[i]) >= times_seen(
        raws,
        w,
    ) by {
        assert(dict[i] == seen[ranks[i].1 as int].word);
        lemma_rank_of(d, i);
        lemma_rank_of(d, q);
        assert(ranks[i].0 >= ranks[q].0);
    }
}

/// The dictionary of an ASCII text holds words that are text and fit their
/// lengths, and not too many.
pub proof fn lemma_ascii_dictionary(d: Seq<u8>)
    requires
        split_common::all_ascii(d),
        d.len() <= u32::MAX,
    ensures
        no_empty_word(dictionary_of(d)),
        words_fit(dictionary_of(d)),
        words_are_text(dictionary_of(d)),
        dictionary_of(d).len() <= MAX_XWRT_WORDS,
{
    let raws = words_in(d);
    let seen = counted_all(Seq::empty(), raws);
    let dict = dictionary_of(d);
    lemma_words_ascii(d);
    lemma_counted_good(Seq::empty(), raws);
    lemma_chosen_len(seen);
    let keys = rank_keys(seen);
    let order = sorting::ranked(keys);
    sorting::lemma_ranked(keys);
    assert forall|k: int| 0 <= k < order.len() implies (#[trigger] order[k]).1 < seen.len() by {
        assert(order.contains(order[k]));
        assert(keys.contains(order[k]));
    }
    assert forall|j: int| 0 <= j < dict.len() implies (#[trigger] dict[j]).len() > 0
        && dict[j].len() <= MAX_XWRT_WORD_LEN && as_text(dict[j]) == dict[j] by {
        lemma_chosen_from(seen, order, j);
        let p = choose|p: int| 0 <= p < seen.len() && dict[j] == (#[trigger] seen[p]).word;
        assert(split_common::all_ascii(seen[p].word));
    }
}

/// Counts the words of a text.
fn scan_text(data: &[u8]) -> (s: WordScanner)
    ensures
        s.wf(),
        s@ == counted_all(Seq::empty(), words_in(data@)),
        freqs_within(s@, usize::MAX as int),
{
    let ghost goal = counted_all(Seq::empty(), words_in(data@));
    let mut s = WordScanner::new();
    let mut i: usize = 0;
    assert(data@.skip(0) =~= data@);
    while i < data.len()
        invariant
            i <= data@.len(),
            s.wf(),
            freqs_within(s@, i as int),
            goal == counted_all(s@, words_in(data@.skip(i as int))),
        decreases data@.len() - i,
    {
        let ghost rest = data@.skip(i as int);
        assert(rest[0] == data@[i as int]);
        let start: usize = i;
        let ghost run = word_run(rest);
        proof {
            lemma_word_run(rest);
        }
        while i < data.len() && !is_word_break(data[i])
            invariant
                start <= i <= data@.len(),
                run == i - start + word_run(data@.skip(i as int)),
            decreases data@.len() - i,
        {
            assert(data@.skip(i as int).drop_first() =~= data@.skip(i + 1));
            i = i + 1;
        }
        assert(i - start == run);
        if i > start {
            let word: &[u8] = vstd::slice::slice_subrange(data, start, i);
            assert(word@ =~= rest.take(run));
            assert(rest.skip(run) =~= data@.skip(i as int));
            let ghost before = s@;
            proof {
                lemma_counted_freqs(before, word@, start as int);
                let ws = words_in(rest);
                assert(ws[0] == word@);
                assert(ws.drop_first() =~= words_in(rest.skip(run)));
            }
            s.add_word(word);
        } else {
            assert(rest.drop_first() =~= data@.skip(i + 1));
            i = i + 1;
        }
    }
    assert(data@.skip(i as int).len() == 0);
    s
}

/// Counts the literal words of a transformed text.
fn scan_literals(data: &[u8]) -> (s: WordScanner)
    ensures
        s.wf(),
        s@ == counted_all(Seq::empty(), literal_words(data@)),
        freqs_within(s@, usize::MAX as int),
{
    let ghost goal = counted_all(Seq::empty(), literal_words(data@));
    let mut s = WordScanner::new();
    let mut i: usize = 0;
    assert(data@.skip(0) =~= data@);
    while i < data.len()
        invariant
            i <= data@.len(),
            s.wf(),
            freqs_within(s@, i as int),
            goal == counted_all(s@, literal_words(data@.skip(i as int))),
        decreases data@.len() - i,
    {
        let ghost rest = data@.skip(i as int);
        assert(rest[0] == data@[i as int]);
        if data[i] >= 0x80 {
            let next: usize = skip_xwrt_token(data, i);
            assert(rest.skip(token_len(rest)) =~= data@.skip(next as int));
            i = next;
        } else {
            let start: usize = i;
            let ghost run = literal_run(rest);
            proof {
                lemma_word_run(rest);
            }
            while i < data.len() && data[i] < 0x80 && !is_word_break(data[i])
                invariant
                    start <= i <= data@.len(),
                    run == i - start + literal_run(data@.skip(i as int)),
                decreases data@.len() - i,
            {
                assert(data@.skip(i as int).drop_first() =~= data@.skip(i + 1));
                i = i + 1;
            }
            assert(i - start == run);
            if i > start {
                let word: &[u8] = vstd::slice::slice_subrange(data, start, i);
                assert(word@ =~= rest.take(run));
                assert(rest.skip(run) =~= data@.skip(i as int));
                let ghost before = s@;
                proof {
                    lemma_counted_freqs(before, word@, start as int);
                    let ws = literal_words(rest);
                    assert(ws[0] == word@);
                    assert(ws.drop_first() =~= literal_words(rest.skip(run)));
                }
                s.add_word(word);
            } else {
                assert(rest.drop_first() =~= data@.skip(i + 1));
                i = i + 1;
            }
        }
    }
    assert(data@.skip(i as int).len() == 0);
    s
}

/// Replaces the frequent words of a text, with the text's own dictionary.
pub fn xwrt_transform(data: &[u8]) -> (out: Vec<u8>)
    ensures
        out@ == xwrt_coded(dictionary_of(data@), data@),
{
    let dict = XwrtDictionary::build_from_data(data);
    dict.transform(data)
}

/// Replaces tokens with the dictionary of the words that stand literally in the
/// transformed text. The length of the text is not consulted.
pub fn xwrt_inverse_transform(data: &[u8], orig_len: usize) -> (out: Vec<u8>)
    ensures
        out@ == xwrt_plain(literal_dictionary_of(data@), data@),
{
    let scanner = scan_literals(data);
    let dict = scanner.build_dictionary();
    inverse_with_dict(data, orig_len, &dict)
}

/// Replaces tokens with a serialized dictionary; a dictionary that cannot be
/// parsed gives nothing.
pub fn xwrt_inverse_with_dict(data: &[u8], orig_len: usize, dict_data: &[u8]) -> (out: Vec<u8>)
    ensures
        out@ == match parsed_dict(dict_data@) {
            Some(dict) => xwrt_plain(dict, data@),
            None => Seq::empty(),
        },
{
    match XwrtDictionary::from_bytes(dict_data) {
        Some(dict) => inverse_with_dict(data, orig_len, &dict),
        None => Vec::new(),
    }
}

/// Replaces tokens with the words of a dictionary. The length of the text is
/// not consulted.
pub fn inverse_with_dict(data: &[u8], orig_len: usize, dict: &XwrtDictionary) -> (out: Vec<u8>)
    ensures
        out@ == xwrt_plain(dict@, data@),
{
    let _ = orig_len;
    let words: &Vec<Vec<u8>> = dict.id_to_word();
    let mut out: Vec<u8> = Vec::new();
    let mut i: usize = 0;
    assert(data@.skip(0) =~= data@);
    while i < data.len()
        invariant
            i <= data@.len(),
            word_views(words@) == dict@,
            out@ + xwrt_plain(dict@, data@.skip(i as int)) =~= xwrt_plain(dict@, data@),
        decreases data@.len() - i,
    {
        let ghost rest = data@.skip(i as int);
        let ghost before = out@;
        assert(rest[0] == data@[i as int]);
        match parse_xwrt_token(data, i) {
            Some((id, n)) => {
                if id < words.len() {
                    assert(dict@[id as int] == words@[id as int]@);
                    bytes::push_slice(&mut out, words[id].as_slice());
                }
                assert(rest.skip(n as int) =~= data@.skip(i + n));
                i = i + n;
            },
            None => {
                out.push(data[i]);
                assert(rest.drop_first() =~= data@.skip(i + 1));
                i = i + 1;
            },
        }
        assert(out@ + xwrt_plain(dict@, data@.skip(i as int)) =~= before + xwrt_plain(
            dict@,
            rest,
        ));
    }
    assert(data@.skip(i as int).len() == 0);
    out
}

} // verus!
