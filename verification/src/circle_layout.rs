//! The circular layout plan: one circle per word.
//!
//! Everything about a circle that is exact integer data is planned and
//! verified here: its radius, whether it attaches to a shared letter of the
//! previous word and at which node, and — while no attachment has forced
//! trigonometry into the chain — its exact center and starting rotation.
//! The first circle sits at the origin rotated -90 degrees; a later circle
//! either stacks below its predecessor or attaches at the first node of the
//! previous word that carries the current word's first letter. Turning an
//! attached circle's plan into coordinates takes floating-point trigonometry
//! and is left to the rendering layer, which consumes this plan.

use vstd::prelude::*;

use crate::parse::{lemma_total_len_term, total_len, wf_word};
use crate::phrase::{word_texts, Phrase, Word, MAX_PHRASE_LEN};

verus! {

/// The planned geometry of one word's circle.
///
/// `center` and `rotation` are `None` exactly when the value is set by
/// attachment trigonometry downstream; `rotation` is an exact fraction of
/// degrees, numerator over denominator.
pub struct Circle {
    pub letter_count: usize,
    pub radius: u64,
    pub attach: Option<usize>,
    pub center: Option<(i64, i64)>,
    pub rotation: Option<(i64, i64)>,
}

impl Circle {
    /// A word's circle before placement: radius twenty per letter, centered
    /// at the origin, rotated -90 degrees, attached to nothing.
    pub fn new(word: &Word) -> (c: Circle)
        requires
            word.text@.len() <= MAX_PHRASE_LEN,
        ensures
            c.letter_count == word.text@.len(),
            c.radius == 20 * word.text@.len(),
            c.attach == Option::<usize>::None,
            c.center == Option::Some((0i64, 0i64)),
            c.rotation == Option::Some((-90i64, 1i64)),
    {
        let m = word.text.len();
        Circle {
            letter_count: m,
            radius: 20 * (m as u64),
            attach: None,
            center: Some((0i64, 0i64)),
            rotation: Some((-90i64, 1i64)),
        }
    }
}

/// The first position at or after `from` whose letter is `c`; -1 if none.
pub open spec fn first_match_from(prev: Seq<u8>, c: u8, from: int) -> int
    decreases prev.len() - from,
{
    if from < 0 || from >= prev.len() {
        -1
    } else if prev[from] == c {
        from
    } else {
        first_match_from(prev, c, from + 1)
    }
}

/// The node of the previous word that the circle attaches to: the first
/// position whose letter equals the current word's first letter; -1 if the
/// letter does not occur there.
pub open spec fn attach_of(prev: Seq<u8>, cur: Seq<u8>) -> int {
    if cur.len() > 0 {
        first_match_from(prev, cur[0], 0)
    } else {
        -1
    }
}

/// The exact center of circle `i`, while no attachment in the chain has
/// forced trigonometry: the first circle sits at the origin, and a stacked
/// circle sits straight below its predecessor at the two radii's distance.
pub open spec fn plan_center(ws: Seq<Seq<u8>>, i: int) -> Option<(int, int)>
    decreases i,
{
    if i <= 0 {
        Option::Some((0int, 0int))
    } else if attach_of(ws[i - 1], ws[i]) >= 0 {
        Option::None
    } else {
        match plan_center(ws, i - 1) {
            Option::Some(p) => Option::Some(
                (p.0, p.1 + 20 * ws[i - 1].len() + 20 * ws[i].len()),
            ),
            Option::None => Option::None,
        }
    }
}

/// The exact starting rotation of circle `i` in degrees, as a fraction:
/// -90 for the first circle, -90 plus the 340-degree span over the letter
/// count for a stacked circle, and set by attachment downstream otherwise.
pub open spec fn plan_rotation(ws: Seq<Seq<u8>>, i: int) -> Option<(int, int)> {
    if i <= 0 {
        Option::Some((-90int, 1int))
    } else if attach_of(ws[i - 1], ws[i]) >= 0 {
        Option::None
    } else {
        Option::Some((340 - 90 * ws[i].len(), ws[i].len() as int))
    }
}

/// Whether an exact stored pair agrees with a planned one.
pub open spec fn opt_pair_matches(c: Option<(i64, i64)>, s: Option<(int, int)>) -> bool {
    match (c, s) {
        (Option::None, Option::None) => true,
        (Option::Some(p), Option::Some(q)) => p.0 as int == q.0 && p.1 as int == q.1,
        _ => false,
    }
}

/// What the plan prescribes for circle `i` of the given words.
pub open spec fn circle_wf(c: Circle, ws: Seq<Seq<u8>>, i: int) -> bool {
    let w = ws[i];
    &&& c.letter_count == w.len()
    &&& c.radius == 20 * w.len()
    &&& c.attach == (if i > 0 && attach_of(ws[i - 1], w) >= 0 {
        Option::Some(attach_of(ws[i - 1], w) as usize)
    } else {
        Option::<usize>::None
    })
    &&& opt_pair_matches(c.center, plan_center(ws, i))
    &&& opt_pair_matches(c.rotation, plan_rotation(ws, i))
}

/// The first word's circle always sits at the origin, rotated -90 degrees,
/// and attaches to nothing.
pub proof fn lemma_first_circle(c: Circle, ws: Seq<Seq<u8>>)
    requires
        circle_wf(c, ws, 0),
    ensures
        c.center == Option::Some((0i64, 0i64)),
        c.rotation == Option::Some((-90i64, 1i64)),
        c.attach == Option::<usize>::None,
{
}

/// The plan is a function of the words alone: two circles planned for the
/// same position of the same phrase are identical.
pub proof fn lemma_layout_deterministic(c1: Circle, c2: Circle, ws: Seq<Seq<u8>>, i: int)
    requires
        circle_wf(c1, ws, i),
        circle_wf(c2, ws, i),
    ensures
        c1 == c2,
{
}

/// The ordered plan, one circle per word.
pub struct CircleLayout {
    pub circle_list: Vec<Circle>,
}

impl CircleLayout {
    pub fn new() -> (s: CircleLayout)
        ensures
            s.circle_list@.len() == 0,
    {
        CircleLayout { circle_list: Vec::new() }
    }

    /// Plans one circle per word of the phrase, in phrase order.
    pub fn layout(&mut self, phrase: &Phrase)
        requires
            phrase.wf(),
            old(self).circle_list@.len() == 0,
        ensures
            final(self).circle_list@.len() == phrase.phrase_words@.len(),
            forall|i: int|
                0 <= i < phrase.phrase_words@.len() ==> circle_wf(
                    #[trigger] final(self).circle_list@[i],
                    word_texts(phrase.phrase_words@),
                    i,
                ),
    {
        let ghost ws = word_texts(phrase.phrase_words@);
        let n = phrase.phrase_words.len();
        let mut prev_center: Option<(i64, i64)> = None;
        let mut i: usize = 0;
        while i < n
            invariant
                i <= n,
                n == phrase.phrase_words@.len(),
                phrase.wf(),
                ws == word_texts(phrase.phrase_words@),
                self.circle_list@.len() == i,
                forall|k: int|
                    0 <= k < i ==> circle_wf(#[trigger] self.circle_list@[k], ws, k),
                i > 0 ==> opt_pair_matches(prev_center, plan_center(ws, i as int - 1)),
                i > 0 ==> match prev_center {
                    Option::Some(p) => p.0 == 0 && 0 <= p.1 && p.1 + 20 * ws[i as int - 1].len()
                        <= 40 * total_len(ws, i as int),
                    Option::None => true,
                },
            decreases n - i,
        {
            let wref = &phrase.phrase_words[i];
            let m = wref.text.len();
            proof {
                assert(phrase.phrase_words@[i as int].wf());
                assert(ws[i as int] == wref.text@);
                assert(wf_word(ws[i as int]));
                lemma_total_len_term(ws, i as int, n as int);
                assert(m <= MAX_PHRASE_LEN);
            }
            let mut circle = Circle::new(wref);

            let mut attach: Option<usize> = None;
            if i > 0 {
                let prev = &phrase.phrase_words[i - 1];
                let ghost pt = prev.text@;
                proof {
                    assert(ws[i as int - 1] == pt);
                }
                let c0 = wref.text[0];
                let pm = prev.text.len();
                let mut j: usize = 0;
                let mut found = false;
                let mut att: usize = 0;
                while j < pm
                    invariant
                        j <= pm,
                        pm == pt.len(),
                        prev.text@ == pt,
                        c0 == ws[i as int][0],
                        ws[i as int].len() > 0,
                        !found ==> first_match_from(pt, c0, 0) == first_match_from(
                            pt,
                            c0,
                            j as int,
                        ),
                        found ==> att < pm && first_match_from(pt, c0, 0) == att as int,
                    decreases pm - j,
                {
                    if !found && prev.text[j] == c0 {
                        proof {
                            assert(first_match_from(pt, c0, j as int) == j as int);
                        }
                        att = j;
                        found = true;
                    }
                    j += 1;
                }
                if found {
                    attach = Some(att);
                    proof {
                        assert(attach_of(ws[i as int - 1], ws[i as int]) == att as int);
                    }
                } else {
                    proof {
                        assert(first_match_from(pt, c0, pm as int) == -1);
                        assert(attach_of(ws[i as int - 1], ws[i as int]) == -1);
                    }
                }
            }

            let is_attached = attach.is_some();
            if i == 0 {
                proof {
                    assert(total_len(ws, 0int) == 0);
                    assert(total_len(ws, 1int) == ws[0].len());
                }
            } else if is_attached {
                circle.attach = attach;
                circle.center = None;
                circle.rotation = None;
            } else {
                let prev_m = phrase.phrase_words[i - 1].text.len();
                proof {
                    assert(ws[i as int - 1].len() == prev_m);
                    assert(total_len(ws, i as int + 1) == total_len(ws, i as int) + m);
                    assert(total_len(ws, i as int) == total_len(ws, i as int - 1) + prev_m);
                    crate::parse::lemma_total_len_mono(ws, i as int + 1, n as int);
                    assert(total_len(ws, i as int + 1) <= MAX_PHRASE_LEN);
                    crate::parse::lemma_total_len_nonneg(ws, i as int - 1);
                }
                match prev_center {
                    Some(p) => {
                        let add: i64 = 20 * (prev_m as i64) + 20 * (m as i64);
                        circle.center = Some((p.0, p.1 + add));
                    },
                    None => {
                        circle.center = None;
                    },
                }
                circle.rotation = Some((340 - 90 * (m as i64), m as i64));
            }

            proof {
                assert(circle_wf(circle, ws, i as int));
            }
            prev_center = circle.center;
            self.circle_list.push(circle);
            i += 1;
        }
    }
}

} // verus!
