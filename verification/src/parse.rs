//! Turning raw phrase text into words of the script.
//!
//! Only ASCII letters and whitespace are meaningful: everything else is
//! dropped, letters are folded to uppercase, and whitespace separates words.
//! A word whose first and last letter coincide loses the trailing duplicate.

use vstd::prelude::*;

use crate::alphabet::{is_letter, is_lowercase_letter, is_separator};
use vstd::string::StringSliceAdditionalSpecFns;

verus! {

/// The filtering and case-folding step: letters are kept uppercase,
/// separators become a single canonical separator byte, everything else
/// is dropped.
pub open spec fn canon_chars(s: Seq<u8>) -> Seq<u8>
    decreases s.len(),
{
    if s.len() == 0 {
        Seq::empty()
    } else {
        let rest = canon_chars(s.drop_last());
        let b = s.last();
        if is_letter(b) {
            rest.push(b)
        } else if is_lowercase_letter(b) {
            rest.push((b - 32) as u8)
        } else if is_separator(b) {
            rest.push(32u8)
        } else {
            rest
        }
    }
}

/// Splitting a filtered byte sequence on separators, dropping empty tokens.
pub open spec fn split_words(s: Seq<u8>) -> Seq<Seq<u8>>
    decreases s.len(),
{
    if s.len() == 0 {
        Seq::empty()
    } else {
        let prev = split_words(s.drop_last());
        let b = s.last();
        if b == 32 {
            prev
        } else if s.len() >= 2 && s[s.len() - 2] != 32 {
            prev.update(prev.len() - 1, prev.last().push(b))
        } else {
            prev.push(seq![b])
        }
    }
}

/// A word is canonicalized by dropping the trailing duplicate of its first
/// letter; a word of length one is left alone.
pub open spec fn canonical_word(w: Seq<u8>) -> Seq<u8> {
    if w.len() > 1 && w[0] == w.last() {
        w.drop_last()
    } else {
        w
    }
}

/// The words of a raw phrase: filter, split, canonicalize.
pub open spec fn phrase_words(s: Seq<u8>) -> Seq<Seq<u8>> {
    split_words(canon_chars(s)).map_values(|w: Seq<u8>| canonical_word(w))
}

/// A well-formed word: non-empty, all uppercase letters.
pub open spec fn wf_word(w: Seq<u8>) -> bool {
    &&& w.len() > 0
    &&& forall|j: int| 0 <= j < w.len() ==> is_letter(#[trigger] w[j])
}

proof fn lemma_take_step(s: Seq<u8>, i: int)
    requires
        0 <= i < s.len(),
    ensures
        s.take(i + 1).drop_last() == s.take(i),
        s.take(i + 1).last() == s[i],
        s.take(i + 1).len() == i + 1,
{
    assert(s.take(i + 1).drop_last() =~= s.take(i));
}

proof fn lemma_canon_wf(s: Seq<u8>)
    ensures
        forall|i: int|
            0 <= i < canon_chars(s).len() ==> (#[trigger] canon_chars(s)[i] == 32 || is_letter(
                canon_chars(s)[i],
            )),
    decreases s.len(),
{
    if s.len() > 0 {
        lemma_canon_wf(s.drop_last());
        let rest = canon_chars(s.drop_last());
        let c = canon_chars(s);
        assert forall|i: int| 0 <= i < c.len() implies (#[trigger] c[i] == 32 || is_letter(
            c[i],
        )) by {
            if i < rest.len() {
                assert(rest[i] == 32 || is_letter(rest[i]));
            } else {
                assert(c.len() == rest.len() + 1 && i == rest.len());
            }
        }
    }
}

proof fn lemma_split_wf(c: Seq<u8>)
    requires
        forall|i: int| 0 <= i < c.len() ==> (#[trigger] c[i] == 32 || is_letter(c[i])),
    ensures
        forall|k: int| 0 <= k < split_words(c).len() ==> wf_word(#[trigger] split_words(c)[k]),
        c.len() > 0 && c.last() != 32 ==> split_words(c).len() > 0,
    decreases c.len(),
{
    if c.len() > 0 {
        let d = c.drop_last();
        assert(forall|i: int| 0 <= i < d.len() ==> #[trigger] d[i] == c[i]);
        lemma_split_wf(d);
        let prev = split_words(d);
        let b = c.last();
        if b == 32 {
        } else if c.len() >= 2 && c[c.len() - 2] != 32 {
            assert(d.len() > 0 && d.last() != 32);
            let grown = prev.last().push(b);
            assert(wf_word(prev[prev.len() - 1]));
            assert(is_letter(b));
            assert(forall|j: int| 0 <= j < grown.len() ==> is_letter(#[trigger] grown[j]));
            assert(forall|k: int|
                0 <= k < split_words(c).len() ==> wf_word(#[trigger] split_words(c)[k]));
        } else {
            assert(is_letter(b));
        }
    }
}

/// Every word that parsing produces is non-empty and holds only uppercase
/// ASCII letters, whatever the input text was.
pub proof fn lemma_phrase_words_wellformed(s: Seq<u8>)
    ensures
        forall|k: int|
            0 <= k < phrase_words(s).len() ==> wf_word(#[trigger] phrase_words(s)[k]),
{
    lemma_canon_wf(s);
    lemma_split_wf(canon_chars(s));
    let sw = split_words(canon_chars(s));
    assert forall|k: int| 0 <= k < phrase_words(s).len() implies wf_word(
        #[trigger] phrase_words(s)[k],
    ) by {
        assert(phrase_words(s)[k] == canonical_word(sw[k]));
        assert(wf_word(sw[k]));
        let w = sw[k];
        if w.len() > 1 && w[0] == w.last() {
            assert(forall|j: int|
                0 <= j < w.drop_last().len() ==> #[trigger] w.drop_last()[j] == w[j]);
        }
    }
}

/// Splits raw phrase bytes into canonicalized words.
pub fn tokenize(bytes: &[u8]) -> (words: Vec<Vec<u8>>)
    ensures
        words.deep_view() == phrase_words(bytes@),
{
    let ghost s = bytes@;
    let mut raw: Vec<Vec<u8>> = Vec::new();
    let mut cur: Vec<u8> = Vec::new();
    let mut i: usize = 0;
    while i < bytes.len()
        invariant
            i <= s.len(),
            bytes@ == s,
            cur@.len() > 0 ==> {
                let c = canon_chars(s.take(i as int));
                c.len() > 0 && c.last() != 32 && split_words(c) == raw.deep_view().push(cur@)
            },
            cur@.len() == 0 ==> {
                let c = canon_chars(s.take(i as int));
                (c.len() == 0 || c.last() == 32) && split_words(c) == raw.deep_view()
            },
        decreases s.len() - i,
    {
        let ghost c_old = canon_chars(s.take(i as int));
        proof {
            lemma_take_step(s, i as int);
        }
        let b = bytes[i];
        let up: u8 = if b >= 97 && b <= 122 {
            b - 32
        } else {
            b
        };
        if up >= 65 && up <= 90 {
            let ghost c_new = canon_chars(s.take(i as int + 1));
            assert(c_new == c_old.push(up));
            if cur.len() > 0 {
                let ghost old_raw = raw.deep_view();
                let ghost old_cur = cur@;
                cur.push(up);
                proof {
                    assert(c_new.drop_last() =~= c_old);
                    assert(c_new.last() == up && up != 32);
                    assert(c_new[c_new.len() - 2] == c_old.last());
                    let prev = split_words(c_old);
                    assert(prev == old_raw.push(old_cur));
                    assert(split_words(c_new) == prev.update(prev.len() - 1, prev.last().push(up)));
                    assert(prev.last() == old_cur);
                    assert(prev.update(prev.len() - 1, old_cur.push(up)) =~= old_raw.push(
                        old_cur.push(up),
                    ));
                }
            } else {
                let ghost old_raw = raw.deep_view();
                cur.push(up);
                proof {
                    assert(c_new.drop_last() =~= c_old);
                    if c_old.len() > 0 {
                        assert(c_old.last() == 32);
                        assert(c_new[c_new.len() - 2] == 32);
                    }
                    assert(split_words(c_new) == split_words(c_old).push(seq![up]));
                    assert(cur@ =~= seq![up]);
                }
            }
        } else if up == 9 || up == 10 || up == 11 || up == 12 || up == 13 || up == 32 {
            let ghost c_new = canon_chars(s.take(i as int + 1));
            assert(c_new == c_old.push(32u8));
            assert(split_words(c_new) == split_words(c_old)) by {
                assert(c_new.drop_last() =~= c_old);
            }
            if cur.len() > 0 {
                let ghost old_raw = raw.deep_view();
                let ghost old_cur = cur@;
                raw.push(cur);
                cur = Vec::new();
                proof {
                    assert(raw.deep_view() =~~= old_raw.push(old_cur));
                }
            }
        } else {
            assert(canon_chars(s.take(i as int + 1)) == c_old);
        }
        i += 1;
    }
    assert(s.take(i as int) =~= s);
    if cur.len() > 0 {
        let ghost old_raw = raw.deep_view();
        let ghost old_cur = cur@;
        raw.push(cur);
        proof {
            assert(raw.deep_view() =~~= old_raw.push(old_cur));
        }
    }
    let ghost sw = split_words(canon_chars(s));
    assert(raw.deep_view() == sw);

    // Canonicalize each word.
    let mut words: Vec<Vec<u8>> = Vec::new();
    let mut k: usize = 0;
    while k < raw.len()
        invariant
            k <= raw@.len(),
            raw.deep_view() == sw,
            words.deep_view() =~~= sw.take(k as int).map_values(|w: Seq<u8>| canonical_word(w)),
        decreases raw@.len() - k,
    {
        let ghost before = words.deep_view();
        let mut w = raw[k].clone();
        assert(w@ == sw[k as int]);
        if w.len() > 1 && w[0] == w[w.len() - 1] {
            let _ = w.pop();
            assert(w@ =~= canonical_word(sw[k as int]));
        } else {
            assert(w@ == canonical_word(sw[k as int]));
        }
        words.push(w);
        proof {
            let f = |w: Seq<u8>| canonical_word(w);
            assert(sw.take(k as int + 1) =~= sw.take(k as int).push(sw[k as int]));
            assert(words.deep_view() =~~= before.push(canonical_word(sw[k as int])));
            assert(sw.take(k as int + 1).map_values(f) =~~= sw.take(k as int).map_values(f).push(
                f(sw[k as int]),
            ));
        }
        k += 1;
    }
    assert(sw.take(raw@.len() as int) =~= sw);
    assert(words.deep_view() =~~= phrase_words(bytes@));
    words
}

/// Total number of letters in the first `upto` words.
pub open spec fn total_len(ws: Seq<Seq<u8>>, upto: int) -> int
    decreases upto,
{
    if upto <= 0 {
        0
    } else {
        total_len(ws, upto - 1) + ws[upto - 1].len()
    }
}

pub proof fn lemma_total_len_mono(ws: Seq<Seq<u8>>, a: int, b: int)
    requires
        a <= b,
    ensures
        total_len(ws, a) <= total_len(ws, b),
    decreases b - a,
{
    if a < b {
        lemma_total_len_mono(ws, a, b - 1);
    }
}

pub proof fn lemma_total_len_nonneg(ws: Seq<Seq<u8>>, upto: int)
    ensures
        total_len(ws, upto) >= 0,
    decreases upto,
{
    if upto > 0 {
        lemma_total_len_nonneg(ws, upto - 1);
    }
}

/// No single word is longer than the total over any range that holds it.
pub proof fn lemma_total_len_term(ws: Seq<Seq<u8>>, i: int, n: int)
    requires
        0 <= i < n,
    ensures
        ws[i].len() <= total_len(ws, n),
    decreases n,
{
    if i == n - 1 {
        lemma_total_len_nonneg(ws, n - 1);
    } else {
        lemma_total_len_term(ws, i, n - 1);
    }
}

proof fn lemma_total_len_agree(ws1: Seq<Seq<u8>>, ws2: Seq<Seq<u8>>, upto: int)
    requires
        forall|k: int| 0 <= k < upto ==> #[trigger] ws1[k] == ws2[k],
    ensures
        total_len(ws1, upto) == total_len(ws2, upto),
    decreases upto,
{
    if upto > 0 {
        lemma_total_len_agree(ws1, ws2, upto - 1);
    }
}

proof fn lemma_total_len_update(ws: Seq<Seq<u8>>, i: int, w2: Seq<u8>, upto: int)
    requires
        0 <= i < upto <= ws.len(),
    ensures
        total_len(ws.update(i, w2), upto) == total_len(ws, upto) - ws[i].len() + w2.len(),
    decreases upto,
{
    let u = ws.update(i, w2);
    if i == upto - 1 {
        lemma_total_len_agree(u, ws, upto - 1);
    } else {
        lemma_total_len_update(ws, i, w2, upto - 1);
    }
}

proof fn lemma_canon_len(s: Seq<u8>)
    ensures
        canon_chars(s).len() <= s.len(),
    decreases s.len(),
{
    if s.len() > 0 {
        lemma_canon_len(s.drop_last());
    }
}

proof fn lemma_split_total(c: Seq<u8>)
    requires
        forall|i: int| 0 <= i < c.len() ==> (#[trigger] c[i] == 32 || is_letter(c[i])),
    ensures
        total_len(split_words(c), split_words(c).len() as int) <= c.len(),
        forall|u: int|
            0 <= u <= split_words(c).len() ==> total_len(split_words(c), u) <= c.len(),
    decreases c.len(),
{
    if c.len() > 0 {
        let d = c.drop_last();
        assert(forall|i: int| 0 <= i < d.len() ==> #[trigger] d[i] == c[i]);
        lemma_split_total(d);
        lemma_split_wf(d);
        let prev = split_words(d);
        let cur = split_words(c);
        let b = c.last();
        if b == 32 {
        } else if c.len() >= 2 && c[c.len() - 2] != 32 {
            assert(d.len() > 0 && d.last() != 32);
            assert(prev.len() > 0);
            lemma_total_len_update(prev, prev.len() - 1, prev.last().push(b), prev.len() as int);
        } else {
            assert(cur == prev.push(seq![b]));
            assert(total_len(cur, cur.len() as int) == total_len(cur, cur.len() - 1) + 1);
            lemma_total_len_agree(cur, prev, prev.len() as int);
        }
        assert(total_len(cur, cur.len() as int) <= c.len());
        assert forall|u: int| 0 <= u <= cur.len() implies total_len(cur, u) <= c.len() by {
            lemma_total_len_mono(cur, u, cur.len() as int);
        }
    }
}

/// The letters of a parsed phrase never outnumber the bytes of its text.
pub proof fn lemma_phrase_words_total(s: Seq<u8>)
    ensures
        total_len(phrase_words(s), phrase_words(s).len() as int) <= s.len(),
{
    lemma_canon_len(s);
    lemma_canon_wf(s);
    lemma_split_total(canon_chars(s));
    let sw = split_words(canon_chars(s));
    let pw = phrase_words(s);
    assert(pw.len() == sw.len());
    lemma_total_le_pointwise(pw, sw, pw.len() as int);
}

proof fn lemma_total_le_pointwise(ws1: Seq<Seq<u8>>, ws2: Seq<Seq<u8>>, upto: int)
    requires
        forall|k: int| 0 <= k < upto ==> (#[trigger] ws1[k]).len() <= ws2[k].len(),
    ensures
        total_len(ws1, upto) <= total_len(ws2, upto),
    decreases upto,
{
    if upto > 0 {
        lemma_total_le_pointwise(ws1, ws2, upto - 1);
    }
}

/// The per-character integer code of the display alphabet: a letter becomes
/// its position in the alphabet, a space becomes the sentinel 404202, and
/// every other character is skipped.
pub open spec fn char_ints_of(s: Seq<u8>) -> Seq<usize>
    decreases s.len(),
{
    if s.len() == 0 {
        Seq::empty()
    } else {
        let rest = char_ints_of(s.drop_last());
        let b = s.last();
        if is_letter(b) {
            rest.push((b - 65) as usize)
        } else if is_lowercase_letter(b) {
            rest.push((b - 97) as usize)
        } else if b == 32 {
            rest.push(404202usize)
        } else {
            rest
        }
    }
}

/// Maps each character of `word` to its alphabet position, with 404202
/// standing for a space and all other characters skipped.
pub fn convert_word_to_char_ints(word: &str) -> (char_ints: Vec<usize>)
    ensures
        char_ints@ == char_ints_of(word.spec_bytes()),
{
    let bytes = word.as_bytes();
    let ghost s = bytes@;
    let mut out: Vec<usize> = Vec::new();
    let mut i: usize = 0;
    while i < bytes.len()
        invariant
            i <= s.len(),
            bytes@ == s,
            out@ == char_ints_of(s.take(i as int)),
        decreases s.len() - i,
    {
        proof {
            lemma_take_step(s, i as int);
        }
        let b = bytes[i];
        if b >= 65 && b <= 90 {
            out.push((b - 65) as usize);
        } else if b >= 97 && b <= 122 {
            out.push((b - 97) as usize);
        } else if b == 32 {
            out.push(404202);
        }
        proof {
            assert(s.take(i as int + 1).drop_last() =~= s.take(i as int));
        }
        i += 1;
    }
    assert(s.take(i as int) =~= s);
    out
}

/// Parses a whole phrase into character codes; identical to
/// `convert_word_to_char_ints` applied to the full text.
pub fn parse_phrase(phrase: &str) -> (char_ints: Vec<usize>)
    ensures
        char_ints@ == char_ints_of(phrase.spec_bytes()),
{
    convert_word_to_char_ints(phrase)
}

} // verus!
