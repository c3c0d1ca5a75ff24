//! Morpheme segmentation: a case-stripped token becomes an ordered sequence
//! of dictionary morphemes.
//!
//! The scan is leftmost, shortest-match-first: from each position the
//! candidate grows one character at a time and the first candidate that is a
//! dictionary morpheme is committed.  A token whose first character is
//! uppercase, or that has the shape of a numeric literal, bypasses
//! segmentation and is kept verbatim as a single morpheme.

use vstd::prelude::*;
use crate::text::{is_upper, is_numeric, upper_char, numeric_token};
use crate::vocab::{is_key, gloss, Vocabulary};

verus! {

/// The shortest prefix length `l >= from` such that the first `l` characters
/// of `s` are a dictionary morpheme, or `None` when no prefix from `from` on
/// is one.
pub open spec fn first_hit(s: Seq<char>, from: int) -> Option<int>
    decreases s.len() + 1 - from,
{
    if from < 0 || from > s.len() {
        None
    } else if is_key(s.take(from)) {
        Some(from)
    } else {
        first_hit(s, from + 1)
    }
}

pub proof fn lemma_first_hit_bounds(s: Seq<char>, from: int)
    requires
        first_hit(s, from) is Some,
    ensures
        from <= first_hit(s, from)->Some_0 <= s.len(),
        is_key(s.take(first_hit(s, from)->Some_0)),
    decreases s.len() + 1 - from,
{
    if 0 <= from <= s.len() && !is_key(s.take(from)) {
        lemma_first_hit_bounds(s, from + 1);
    }
}

/// `first_hit` is fixed by where the morpheme prefixes sit: none of length
/// `[from, j)`, and `j` is either past the end (no hit) or a hit.
pub proof fn lemma_first_hit_at(s: Seq<char>, from: int, j: int)
    requires
        0 <= from <= j <= s.len() + 1,
        forall|l: int| from <= l < j ==> !is_key(s.take(l)),
        j <= s.len() ==> is_key(s.take(j)),
    ensures
        j <= s.len() ==> first_hit(s, from) == Some(j),
        j == s.len() + 1 ==> first_hit(s, from) is None,
    decreases s.len() + 1 - from,
{
    if from <= s.len() && !is_key(s.take(from)) {
        lemma_first_hit_at(s, from + 1, j);
    }
}

/// Greedy segmentation of `s` into dictionary morphemes: commit the shortest
/// morpheme prefix, then continue after it; fail if some position has no
/// morpheme prefix at all.
pub open spec fn seg(s: Seq<char>) -> Option<Seq<Seq<char>>>
    decreases s.len(),
{
    if s.len() == 0 {
        Some(Seq::empty())
    } else {
        match first_hit(s, 1) {
            None => None,
            Some(l) => {
                proof {
                    lemma_first_hit_bounds(s, 1);
                }
                match seg(s.skip(l)) {
                    None => None,
                    Some(rest) => Some(seq![s.take(l)] + rest),
                }
            },
        }
    }
}

/// What parsing a case-stripped token into a root yields: nothing for the
/// empty token; the token itself, whole, when it starts with an uppercase
/// character or is a numeric literal; otherwise its greedy segmentation.
pub open spec fn spec_noun(s: Seq<char>) -> Option<Seq<Seq<char>>> {
    if s.len() == 0 {
        None
    } else if is_upper(s[0]) || is_numeric(s) {
        Some(seq![s])
    } else {
        seg(s)
    }
}

pub open spec fn noun_opt_view(r: Option<Noun>) -> Option<Seq<Seq<char>>> {
    match r {
        Some(n) => Some(n@),
        None => None,
    }
}

/// The concatenation of a root's morphemes.
pub open spec fn concat_morphs(ms: Seq<Seq<char>>) -> Seq<char>
    decreases ms.len(),
{
    if ms.len() == 0 {
        Seq::empty()
    } else {
        ms[0] + concat_morphs(ms.skip(1))
    }
}

pub proof fn lemma_concat_snoc(ms: Seq<Seq<char>>, x: Seq<char>)
    ensures
        concat_morphs(ms.push(x)) == concat_morphs(ms) + x,
    decreases ms.len(),
{
    reveal_with_fuel(concat_morphs, 3);
    if ms.len() == 0 {
        assert(ms.push(x).skip(1) =~= Seq::<Seq<char>>::empty());
        assert(concat_morphs(ms.push(x)) =~= concat_morphs(ms) + x);
    } else {
        assert(ms.push(x).skip(1) =~= ms.skip(1).push(x));
        lemma_concat_snoc(ms.skip(1), x);
        assert(concat_morphs(ms.push(x)) =~= concat_morphs(ms) + x);
    }
}

/// The glosses of a root's morphemes, concatenated without separators.
pub open spec fn trans_morphs(ms: Seq<Seq<char>>) -> Seq<char>
    decreases ms.len(),
{
    if ms.len() == 0 {
        Seq::empty()
    } else {
        gloss(ms[0]) + trans_morphs(ms.skip(1))
    }
}

pub proof fn lemma_trans_snoc(ms: Seq<Seq<char>>, x: Seq<char>)
    ensures
        trans_morphs(ms.push(x)) == trans_morphs(ms) + gloss(x),
    decreases ms.len(),
{
    reveal_with_fuel(trans_morphs, 3);
    if ms.len() == 0 {
        assert(ms.push(x).skip(1) =~= Seq::<Seq<char>>::empty());
        assert(trans_morphs(ms.push(x)) =~= trans_morphs(ms) + gloss(x));
    } else {
        assert(ms.push(x).skip(1) =~= ms.skip(1).push(x));
        lemma_trans_snoc(ms.skip(1), x);
        assert(trans_morphs(ms.push(x)) =~= trans_morphs(ms) + gloss(x));
    }
}

/// A root: the ordered morphemes segmented from one case-stripped token.
#[derive(Clone, Debug, PartialEq)]
pub struct Noun(pub Vec<Vocabulary>);

impl View for Noun {
    type V = Seq<Seq<char>>;

    open spec fn view(&self) -> Seq<Seq<char>> {
        self.0.deep_view()
    }
}

impl DeepView for Noun {
    type V = Seq<Seq<char>>;

    open spec fn deep_view(&self) -> Seq<Seq<char>> {
        self.0.deep_view()
    }
}

impl Noun {
    /// Parses a case-stripped token into a root, as `spec_noun` describes.
    pub fn parse(source: &str) -> (r: Option<Noun>)
        ensures
            noun_opt_view(r) == spec_noun(source@),
    {
        let n = source.unicode_len();
        if n == 0 {
            return None;
        }
        let c0 = source.get_char(0);
        if upper_char(c0) || numeric_token(source) {
            let mut whole: Vec<Vocabulary> = Vec::new();
            whole.push(Vocabulary(source.to_owned()));
            proof {
                assert(whole.deep_view() =~= seq![source@]);
            }
            return Some(Noun(whole));
        }
        let mut result: Vec<Vocabulary> = Vec::new();
        let mut index: usize = 0;
        let mut position: usize = 1;
        proof {
            assert(source@.skip(0) =~= source@);
            if seg(source@) is Some {
                assert(result.deep_view() + seg(source@)->Some_0 =~= seg(source@)->Some_0);
            }
        }
        while index < n
            invariant
                n == source@.len(),
                n > 0,
                !is_upper(source@[0]),
                !is_numeric(source@),
                index <= position <= n,
                index < n ==> index < position,
                match seg(source@.skip(index as int)) {
                    Some(rest) => seg(source@) == Some(result.deep_view() + rest),
                    None => seg(source@) is None,
                },
                forall|l: int|
                    1 <= l < position - index ==> !is_key(source@.skip(index as int).take(l)),
            decreases n - index, n - position,
        {
            let ghost tail = source@.skip(index as int);
            let candidate = source.substring_char(index, position);
            proof {
                assert(candidate@ =~= tail.take(position - index));
            }
            match Vocabulary::parse(candidate) {
                Some(v) => {
                    proof {
                        lemma_first_hit_at(tail, 1, position - index);
                        assert(tail.skip(position - index) =~= source@.skip(position as int));
                        match seg(source@.skip(position as int)) {
                            Some(rest2) => {
                                assert(seg(tail) == Some(seq![tail.take(position - index)]
                                    + rest2));
                                assert(result.deep_view() + (seq![tail.take(position - index)]
                                    + rest2) =~= result.deep_view().push(v@) + rest2);
                            },
                            None => {
                                assert(seg(tail) is None);
                            },
                        }
                    }
                    result.push(v);
                    index = position;
                    if index < n {
                        position = index + 1;
                    }
                },
                None => {
                    if position == n {
                        proof {
                            assert forall|l: int| 1 <= l < tail.len() + 1 implies !is_key(
                                tail.take(l),
                            ) by {
                                if l == tail.len() {
                                    assert(tail.take(l) == candidate@);
                                }
                            }
                            lemma_first_hit_at(tail, 1, tail.len() as int + 1);
                            assert(seg(tail) is None);
                        }
                        return None;
                    }
                    position = position + 1;
                },
            }
        }
        proof {
            assert(source@.skip(n as int) =~= Seq::<char>::empty());
            assert(seg(source@) == Some(result.deep_view() + Seq::<Seq<char>>::empty()));
            assert(result.deep_view() + Seq::<Seq<char>>::empty() =~= result.deep_view());
        }
        Some(Noun(result))
    }

    /// The root's surface text: its morphemes concatenated.
    pub fn format(&self) -> (r: String)
        ensures
            r@ == concat_morphs(self@),
    {
        let mut acc = String::new();
        let mut i: usize = 0;
        proof {
            assert(self@.take(0) =~= Seq::<Seq<char>>::empty());
        }
        while i < self.0.len()
            invariant
                i <= self.0.len(),
                acc@ == concat_morphs(self@.take(i as int)),
            decreases self.0.len() - i,
        {
            proof {
                assert(self@.take(i as int).push(self@[i as int]) =~= self@.take(i + 1));
                lemma_concat_snoc(self@.take(i as int), self@[i as int]);
            }
            let piece = self.0[i].format();
            acc.append(piece.as_str());
            i = i + 1;
        }
        proof {
            assert(self@.take(self.0.len() as int) =~= self@);
        }
        acc
    }

    /// The root's gloss: each morpheme's gloss, concatenated.
    pub fn translate(&self) -> (r: String)
        ensures
            r@ == trans_morphs(self@),
    {
        let mut acc = String::new();
        let mut i: usize = 0;
        proof {
            assert(self@.take(0) =~= Seq::<Seq<char>>::empty());
        }
        while i < self.0.len()
            invariant
                i <= self.0.len(),
                acc@ == trans_morphs(self@.take(i as int)),
            decreases self.0.len() - i,
        {
            proof {
                assert(self@.take(i as int).push(self@[i as int]) =~= self@.take(i + 1));
                lemma_trans_snoc(self@.take(i as int), self@[i as int]);
            }
            let piece = self.0[i].translate();
            acc.append(piece.as_str());
            i = i + 1;
        }
        proof {
            assert(self@.take(self.0.len() as int) =~= self@);
        }
        acc
    }
}

} // verus!
