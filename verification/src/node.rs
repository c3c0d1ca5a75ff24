//! The clause parser and its parse tree.
//!
//! A token sequence parses to one of two node shapes.  A single token must
//! carry the object suffix and becomes a bare phrase.  A longer sequence is a
//! verb clause when some token carries the verb suffix, else a phrase when
//! some token carries the object suffix, else nothing.  Dispatch looks only
//! at each token's final character; tokens without a recognised suffix join
//! the run being accumulated (subject, adverb or adjective text, possessor
//! text) until a suffix-bearing token closes it.

use vstd::prelude::*;
use crate::text::{ends_in, last_char_is};
use crate::noun::{spec_noun, Noun};

verus! {

broadcast use vstd::std_specs::vec::group_vec_axioms;

/// The mathematical parse tree.
pub enum NodeV {
    /// A noun phrase: head root, optional possessor, adjective modifiers.
    Word { word: Seq<Seq<char>>, own: Option<Box<NodeV>>, adj: Seq<NodeV> },
    /// A verb clause: verb root, adverbial modifiers, optional subject,
    /// mandatory object.
    Verb { verb: Seq<Seq<char>>, adv: Seq<NodeV>, subj: Option<Box<NodeV>>, obj: Box<NodeV> },
}

/// The parse tree.
#[derive(Debug)]
pub enum Node {
    /// A noun phrase: head root, optional possessor, adjective modifiers.
    Word { word: Noun, own: Option<Box<Node>>, adj: Vec<Node> },
    /// A verb clause: verb root, adverbial modifiers, optional subject,
    /// mandatory object.
    Verb { verb: Noun, adv: Vec<Node>, subj: Option<Box<Node>>, obj: Box<Node> },
}

/// The mathematical value of a parse tree.
pub open spec fn node_view(n: Node) -> NodeV
    decreases n,
{
    match n {
        Node::Word { word, own, adj } => NodeV::Word {
            word: word@,
            own: match own {
                Some(b) => Some(Box::new(node_view(*b))),
                None => None,
            },
            adj: nodes_view(adj@),
        },
        Node::Verb { verb, adv, subj, obj } => NodeV::Verb {
            verb: verb@,
            adv: nodes_view(adv@),
            subj: match subj {
                Some(b) => Some(Box::new(node_view(*b))),
                None => None,
            },
            obj: Box::new(node_view(*obj)),
        },
    }
}

pub open spec fn nodes_view(s: Seq<Node>) -> Seq<NodeV>
    decreases s,
{
    if s.len() == 0 {
        Seq::empty()
    } else {
        nodes_view(s.drop_last()).push(node_view(s.last()))
    }
}

pub open spec fn opt_view(r: Option<Node>) -> Option<NodeV> {
    match r {
        Some(n) => Some(node_view(n)),
        None => None,
    }
}

pub proof fn lemma_nodes_view_push(s: Seq<Node>, n: Node)
    ensures
        nodes_view(s.push(n)) == nodes_view(s).push(node_view(n)),
{
    assert(s.push(n).drop_last() =~= s);
    assert(s.push(n).last() == n);
}

pub proof fn lemma_nodes_view_len(s: Seq<Node>)
    ensures
        nodes_view(s).len() == s.len(),
    decreases s,
{
    if s.len() > 0 {
        lemma_nodes_view_len(s.drop_last());
    }
}

/// Termination measure for the parser: total characters plus token count.
pub open spec fn weight(toks: Seq<Seq<char>>) -> nat
    decreases toks.len(),
{
    if toks.len() == 0 {
        0
    } else {
        toks[0].len() + 1 + weight(toks.skip(1))
    }
}

/// Secondary measure: how many tokens carry the possessive suffix.
pub open spec fn i_count(toks: Seq<Seq<char>>) -> nat
    decreases toks.len(),
{
    if toks.len() == 0 {
        0
    } else {
        (if ends_in(toks[0], 'i') {
            1nat
        } else {
            0nat
        }) + i_count(toks.skip(1))
    }
}

pub proof fn lemma_weight_take_skip(toks: Seq<Seq<char>>, i: int)
    requires
        0 <= i <= toks.len(),
    ensures
        weight(toks) == weight(toks.take(i)) + weight(toks.skip(i)),
    decreases toks.len(),
{
    if i == 0 {
        assert(toks.take(0) =~= Seq::<Seq<char>>::empty());
        assert(toks.skip(0) =~= toks);
    } else {
        let t = toks.skip(1);
        lemma_weight_take_skip(t, i - 1);
        assert(t.take(i - 1) =~= toks.take(i).skip(1));
        assert(t.skip(i - 1) =~= toks.skip(i));
        assert(toks.take(i)[0] == toks[0]);
        assert(weight(toks.take(i)) == toks[0].len() + 1 + weight(toks.take(i).skip(1)));
    }
}

pub proof fn lemma_weight_push(toks: Seq<Seq<char>>, t: Seq<char>)
    ensures
        weight(toks.push(t)) == weight(toks) + t.len() + 1,
    decreases toks.len(),
{
    reveal_with_fuel(weight, 3);
    if toks.len() == 0 {
        assert(toks.push(t).skip(1) =~= Seq::<Seq<char>>::empty());
    } else {
        assert(toks.push(t).skip(1) =~= toks.skip(1).push(t));
        lemma_weight_push(toks.skip(1), t);
    }
}

pub proof fn lemma_weight_ge_len(toks: Seq<Seq<char>>)
    ensures
        weight(toks) >= toks.len(),
    decreases toks.len(),
{
    if toks.len() > 0 {
        lemma_weight_ge_len(toks.skip(1));
    }
}

pub proof fn lemma_weight_take_succ(toks: Seq<Seq<char>>, i: int)
    requires
        0 <= i < toks.len(),
    ensures
        weight(toks.take(i + 1)) == weight(toks.take(i)) + toks[i].len() + 1,
{
    assert(toks.take(i + 1) =~= toks.take(i).push(toks[i]));
    lemma_weight_push(toks.take(i), toks[i]);
}

pub proof fn lemma_i_count_zero(toks: Seq<Seq<char>>)
    requires
        forall|j: int| 0 <= j < toks.len() ==> !ends_in(#[trigger] toks[j], 'i'),
    ensures
        i_count(toks) == 0,
    decreases toks.len(),
{
    if toks.len() > 0 {
        assert(forall|j: int|
            0 <= j < toks.skip(1).len() ==> toks.skip(1)[j] == toks[j + 1]);
        lemma_i_count_zero(toks.skip(1));
    }
}

pub proof fn lemma_i_count_pos(toks: Seq<Seq<char>>, j: int)
    requires
        0 <= j < toks.len(),
        ends_in(toks[j], 'i'),
    ensures
        i_count(toks) >= 1,
    decreases toks.len(),
{
    if j > 0 {
        assert(toks.skip(1)[j - 1] == toks[j]);
        lemma_i_count_pos(toks.skip(1), j - 1);
    }
}

/// The first index at or after `from` whose token ends in `c`.
pub open spec fn first_with(toks: Seq<Seq<char>>, from: int, c: char) -> Option<int>
    decreases toks.len() - from,
{
    if from < 0 || from >= toks.len() {
        None
    } else if ends_in(toks[from], c) {
        Some(from)
    } else {
        first_with(toks, from + 1, c)
    }
}

pub proof fn lemma_first_with_props(toks: Seq<Seq<char>>, from: int, c: char)
    requires
        from >= 0,
    ensures
        match first_with(toks, from, c) {
            Some(j) => from <= j < toks.len() && ends_in(toks[j], c) && forall|m: int|
                from <= m < j ==> !ends_in(#[trigger] toks[m], c),
            None => forall|m: int| from <= m < toks.len() ==> !ends_in(#[trigger] toks[m], c),
        },
    decreases toks.len() - from,
{
    if from < toks.len() && !ends_in(toks[from], c) {
        lemma_first_with_props(toks, from + 1, c);
    }
}

/// Like `lemma_first_with_props`, but pinning the value from the evidence.
pub proof fn lemma_first_with_at(toks: Seq<Seq<char>>, from: int, c: char, j: int)
    requires
        0 <= from <= j <= toks.len(),
        forall|m: int| from <= m < j ==> !ends_in(#[trigger] toks[m], c),
        j < toks.len() ==> ends_in(toks[j], c),
    ensures
        j < toks.len() ==> first_with(toks, from, c) == Some(j),
        j == toks.len() ==> first_with(toks, from, c) is None,
    decreases toks.len() - from,
{
    if from < toks.len() && !ends_in(toks[from], c) {
        lemma_first_with_at(toks, from + 1, c, j);
    }
}

/// Whether an object-suffixed token has occurred in the first `i` tokens of
/// the verb-clause scan: after one has, bare tokens start a fresh run that
/// attaches to the nearest modifier instead of the subject.
pub open spec fn v_flag(toks: Seq<Seq<char>>, i: int) -> bool
    decreases i,
{
    if i <= 0 {
        false
    } else {
        v_flag(toks, i - 1) || (!ends_in(toks[i - 1], 'u') && !ends_in(toks[i - 1], 'e')
            && ends_in(toks[i - 1], 'o'))
    }
}

/// The subject buffer of the verb-clause scan after `i` tokens: the
/// object-suffixed tokens, plus every bare token seen before the first of
/// them.
pub open spec fn v_subj(toks: Seq<Seq<char>>, i: int) -> Seq<Seq<char>>
    decreases i,
{
    if i <= 0 {
        Seq::empty()
    } else {
        let t = toks[i - 1];
        let pre = v_subj(toks, i - 1);
        if ends_in(t, 'u') || ends_in(t, 'e') {
            pre
        } else if ends_in(t, 'o') {
            pre.push(t)
        } else if v_flag(toks, i - 1) {
            pre
        } else {
            pre.push(t)
        }
    }
}

/// The pending-modifier buffer of the verb-clause scan after `i` tokens:
/// bare tokens seen since the last adverb-suffixed token, once the subject
/// run has been opened.
pub open spec fn v_temp(toks: Seq<Seq<char>>, i: int) -> Seq<Seq<char>>
    decreases i,
{
    if i <= 0 {
        Seq::empty()
    } else {
        let t = toks[i - 1];
        let pre = v_temp(toks, i - 1);
        if ends_in(t, 'u') {
            pre
        } else if ends_in(t, 'e') {
            Seq::empty()
        } else if ends_in(t, 'o') {
            pre
        } else if v_flag(toks, i - 1) {
            pre.push(t)
        } else {
            pre
        }
    }
}

/// The pending-modifier buffer of the phrase scan over `[start, i)`: bare
/// tokens seen since the last adjective-suffixed token.
pub open spec fn w_temp(toks: Seq<Seq<char>>, start: int, i: int) -> Seq<Seq<char>>
    decreases i - start,
{
    if i <= start {
        Seq::empty()
    } else {
        let t = toks[i - 1];
        let pre = w_temp(toks, start, i - 1);
        if ends_in(t, 'o') {
            pre
        } else if ends_in(t, 'a') {
            Seq::empty()
        } else {
            pre.push(t)
        }
    }
}

pub proof fn lemma_v_weights(toks: Seq<Seq<char>>, i: int)
    requires
        0 <= i <= toks.len(),
    ensures
        weight(v_subj(toks, i)) + weight(v_temp(toks, i)) <= weight(toks.take(i)),
        v_temp(toks, i).len() > 0 ==> v_flag(toks, i),
        v_flag(toks, i) ==> weight(v_subj(toks, i)) >= 2,
    decreases i,
{
    if i > 0 {
        lemma_v_weights(toks, i - 1);
        lemma_weight_take_succ(toks, i - 1);
        let t = toks[i - 1];
        lemma_weight_push(v_subj(toks, i - 1), t);
        lemma_weight_push(v_temp(toks, i - 1), t);
    }
}

pub proof fn lemma_w_weight(toks: Seq<Seq<char>>, start: int, i: int)
    requires
        0 <= start <= i <= toks.len(),
    ensures
        weight(w_temp(toks, start, i)) + weight(toks.take(start)) <= weight(toks.take(i)),
    decreases i - start,
{
    if i > start {
        lemma_w_weight(toks, start, i - 1);
        lemma_weight_take_succ(toks, i - 1);
        lemma_weight_push(w_temp(toks, start, i - 1), toks[i - 1]);
    }
}

/// The token sequence handed to the possessor sub-parse when the first
/// possessive-suffixed token sits at `k`: everything before it, with the
/// suffix swapped for the object suffix.  A bare possessive suffix merges
/// the object suffix onto the preceding token instead.
pub open spec fn own_arg(toks: Seq<Seq<char>>, k: int) -> Seq<Seq<char>> {
    let st = toks[k].drop_last();
    if st.len() > 0 {
        toks.take(k).push(st.push('o'))
    } else if k == 0 {
        seq![seq!['o']]
    } else {
        toks.take(k - 1).push(toks[k - 1].push('o'))
    }
}

/// The adverb sub-parse argument weighs strictly less than the whole input.
pub proof fn lemma_adv_arg_weight(toks: Seq<Seq<char>>, i: int)
    requires
        1 <= i <= toks.len(),
        ends_in(toks[i - 1], 'e'),
        exists|j: int| i - 1 < j < toks.len() && ends_in(#[trigger] toks[j], 'u'),
    ensures
        weight(v_temp(toks, i - 1).push(toks[i - 1].drop_last().push('o'))) < weight(toks),
{
    let temp = v_temp(toks, i - 1);
    let t = toks[i - 1];
    let x = t.drop_last().push('o');
    assert(x.len() == t.len());
    lemma_v_weights(toks, i - 1);
    lemma_weight_push(temp, x);
    lemma_weight_take_succ(toks, i - 1);
    lemma_weight_take_skip(toks, i);
    let j = choose|j: int| i - 1 < j < toks.len() && ends_in(#[trigger] toks[j], 'u');
    assert(i < toks.len());
    lemma_weight_ge_len(toks.skip(i));
    if temp.len() > 0 {
        assert(weight(v_subj(toks, i - 1)) >= 2);
    }
}

/// The adjective sub-parse argument weighs strictly less than the whole
/// input.
pub proof fn lemma_adj_arg_weight(toks: Seq<Seq<char>>, start: int, i: int)
    requires
        0 <= start < i <= toks.len(),
        ends_in(toks[i - 1], 'a'),
        exists|j: int| i - 1 < j < toks.len() && ends_in(#[trigger] toks[j], 'o'),
    ensures
        weight(w_temp(toks, start, i - 1).push(toks[i - 1].drop_last().push('o'))) < weight(
            toks,
        ),
{
    let temp = w_temp(toks, start, i - 1);
    let t = toks[i - 1];
    let x = t.drop_last().push('o');
    assert(x.len() == t.len());
    lemma_w_weight(toks, start, i - 1);
    lemma_weight_push(temp, x);
    lemma_weight_take_succ(toks, i - 1);
    lemma_weight_take_skip(toks, i);
    let j = choose|j: int| i - 1 < j < toks.len() && ends_in(#[trigger] toks[j], 'o');
    assert(i < toks.len());
    lemma_weight_ge_len(toks.skip(i));
}

/// The subject buffer and the object span each weigh strictly less than the
/// whole input.
pub proof fn lemma_subj_obj_weight(toks: Seq<Seq<char>>, k: int)
    requires
        0 <= k < toks.len(),
    ensures
        weight(v_subj(toks, k)) < weight(toks),
        weight(toks.skip(k + 1)) < weight(toks),
{
    lemma_v_weights(toks, k);
    lemma_weight_take_skip(toks, k);
    lemma_weight_ge_len(toks.skip(k));
    lemma_weight_take_skip(toks, k + 1);
    lemma_weight_ge_len(toks.take(k + 1));
}

/// The possessor argument weighs no more than the whole input, and where it
/// weighs the same it has shed every possessive suffix.
pub proof fn lemma_own_arg_decreases(toks: Seq<Seq<char>>, k: int)
    requires
        0 <= k < toks.len(),
        toks.len() >= 2,
        ends_in(toks[k], 'i'),
        forall|m: int| 0 <= m < k ==> !ends_in(#[trigger] toks[m], 'i'),
    ensures
        weight(own_arg(toks, k)) < weight(toks) || (weight(own_arg(toks, k)) == weight(toks)
            && i_count(own_arg(toks, k)) < i_count(toks)),
{
    let st = toks[k].drop_last();
    lemma_weight_take_skip(toks, k + 1);
    lemma_weight_take_succ(toks, k);
    lemma_weight_ge_len(toks.skip(k + 1));
    if st.len() > 0 {
        let arg = toks.take(k).push(st.push('o'));
        lemma_weight_push(toks.take(k), st.push('o'));
        assert(st.push('o').len() == toks[k].len());
        assert(weight(arg) == weight(toks.take(k + 1)));
        if k + 1 == toks.len() {
            assert(toks.skip(k + 1).len() == 0);
            assert(weight(arg) == weight(toks));
            assert forall|j: int| 0 <= j < arg.len() implies !ends_in(#[trigger] arg[j], 'i') by {
                if j < k {
                    assert(arg[j] == toks[j]);
                } else {
                    assert(arg[j] == st.push('o'));
                    assert(arg[j].last() == 'o');
                }
            }
            lemma_i_count_zero(arg);
            lemma_i_count_pos(toks, k);
        } else {
            assert(weight(toks.skip(k + 1)) >= 1);
        }
    } else if k == 0 {
        assert(toks[0].len() == 1);
        assert(weight(seq![seq!['o']]) == 2) by {
            reveal_with_fuel(weight, 3);
            assert(seq![seq!['o']].skip(1) =~= Seq::<Seq<char>>::empty());
            assert(seq![seq!['o']][0].len() == 1);
        }
        lemma_weight_take_succ(toks, 0);
        assert(toks.take(0) =~= Seq::<Seq<char>>::empty());
        assert(weight(toks.take(1)) == 2);
        lemma_weight_ge_len(toks.skip(1));
        lemma_weight_take_skip(toks, 1);
    } else {
        let arg = toks.take(k - 1).push(toks[k - 1].push('o'));
        lemma_weight_push(toks.take(k - 1), toks[k - 1].push('o'));
        lemma_weight_take_succ(toks, k - 1);
        assert(toks[k].len() == 1);
        assert(weight(arg) == weight(toks.take(k)) + 1);
        assert(weight(toks.take(k + 1)) == weight(toks.take(k)) + 2);
    }
}

/// The adverbial modifiers committed over the first `i` tokens of a verb
/// clause: each adverb-suffixed token closes a modifier made of the pending
/// bare tokens plus itself, re-suffixed as an object, and parsed as a phrase.
/// `None` when one of those sub-parses failed, which fails the whole parse.
pub open spec fn adv_nodes(toks: Seq<Seq<char>>, i: int) -> Option<Seq<NodeV>>
    decreases weight(toks), i_count(toks), 1nat, i,
{
    if i <= 0 || i > toks.len() {
        Some(Seq::empty())
    } else {
        match adv_nodes(toks, i - 1) {
            None => None,
            Some(pre) => {
                let t = toks[i - 1];
                if ends_in(t, 'u') {
                    Some(pre)
                } else if ends_in(t, 'e') {
                    if exists|j: int| i - 1 < j < toks.len() && ends_in(#[trigger] toks[j], 'u') {
                        let arg = v_temp(toks, i - 1).push(t.drop_last().push('o'));
                        proof {
                            lemma_adv_arg_weight(toks, i);
                        }
                        match parse_toks(arg) {
                            None => None,
                            Some(nd) => Some(pre.push(nd)),
                        }
                    } else {
                        Some(pre)
                    }
                } else {
                    Some(pre)
                }
            },
        }
    }
}

/// The adjective modifiers committed over `[start, i)` of a phrase: each
/// adjective-suffixed token closes a modifier made of the pending bare
/// tokens plus itself, re-suffixed as an object, and parsed as a phrase.
pub open spec fn adj_nodes(toks: Seq<Seq<char>>, start: int, i: int) -> Option<Seq<NodeV>>
    decreases weight(toks), i_count(toks), 1nat, i,
{
    if i <= start || i > toks.len() || start < 0 {
        Some(Seq::empty())
    } else {
        match adj_nodes(toks, start, i - 1) {
            None => None,
            Some(pre) => {
                let t = toks[i - 1];
                if ends_in(t, 'o') {
                    Some(pre)
                } else if ends_in(t, 'a') {
                    if exists|j: int| i - 1 < j < toks.len() && ends_in(#[trigger] toks[j], 'o') {
                        let arg = w_temp(toks, start, i - 1).push(t.drop_last().push('o'));
                        proof {
                            lemma_adj_arg_weight(toks, start, i);
                        }
                        match parse_toks(arg) {
                            None => None,
                            Some(nd) => Some(pre.push(nd)),
                        }
                    } else {
                        Some(pre)
                    }
                } else {
                    Some(pre)
                }
            },
        }
    }
}

/// The clause built once the scan has reached the first verb-suffixed token,
/// at `k`: its stripped root is the verb; the subject buffer, if non-empty,
/// parses as the subject; everything after `k` parses as the object.  Any
/// sub-parse failure, or a missing object span, fails the parse.
pub open spec fn verb_result(toks: Seq<Seq<char>>, k: int) -> Option<NodeV>
    decreases weight(toks), i_count(toks), 3nat, 0nat,
{
    if toks.len() < 2 || !(0 <= k < toks.len()) || !ends_in(toks[k], 'u') {
        None
    } else {
        match adv_nodes(toks, k) {
            None => None,
            Some(advs) => match spec_noun(toks[k].drop_last()) {
                None => None,
                Some(vb) => {
                    let subj_toks = v_subj(toks, k);
                    proof {
                        lemma_subj_obj_weight(toks, k);
                    }
                    let objr = parse_toks(toks.skip(k + 1));
                    if subj_toks.len() == 0 {
                        match objr {
                            None => None,
                            Some(o) => Some(
                                NodeV::Verb {
                                    verb: vb,
                                    adv: advs,
                                    subj: None,
                                    obj: Box::new(o),
                                },
                            ),
                        }
                    } else {
                        match parse_toks(subj_toks) {
                            None => None,
                            Some(s) => match objr {
                                None => None,
                                Some(o) => Some(
                                    NodeV::Verb {
                                        verb: vb,
                                        adv: advs,
                                        subj: Some(Box::new(s)),
                                        obj: Box::new(o),
                                    },
                                ),
                            },
                        }
                    }
                },
            },
        }
    }
}

/// The phrase built from the tokens at `start` on, with an already-parsed
/// possessor: the scan runs to the first object-suffixed token, whose
/// stripped root is the head; adjective modifiers collect on the way.
pub open spec fn word_scan(toks: Seq<Seq<char>>, start: int, own: Option<NodeV>) -> Option<
    NodeV,
>
    decreases weight(toks), i_count(toks), 2nat, 0nat,
{
    if !(0 <= start <= toks.len()) {
        None
    } else {
        match first_with(toks, start, 'o') {
            None => None,
            Some(h) => {
                proof {
                    lemma_first_with_props(toks, start, 'o');
                }
                match adj_nodes(toks, start, h) {
                    None => None,
                    Some(adjs) => match spec_noun(toks[h].drop_last()) {
                        None => None,
                        Some(w) => Some(
                            NodeV::Word {
                                word: w,
                                own: match own {
                                    Some(p) => Some(Box::new(p)),
                                    None => None,
                                },
                                adj: adjs,
                            },
                        ),
                    },
                }
            },
        }
    }
}

/// The phrase built from a multi-token sequence.  A leading possessive run
/// is taken only when a possessive-suffixed token is found before any
/// object-suffixed token: the run up to and including it is re-suffixed and
/// parsed as the possessor, and the possessor's failure fails the whole
/// parse.  The rest is scanned for adjectives and the head.
pub open spec fn word_result(toks: Seq<Seq<char>>) -> Option<NodeV>
    decreases weight(toks), i_count(toks), 3nat, 0nat,
{
    if toks.len() < 2 {
        None
    } else {
        match first_with(toks, 0, 'i') {
            None => word_scan(toks, 0, None),
            Some(k) => {
                if exists|m: int| 0 <= m < k && ends_in(#[trigger] toks[m], 'o') {
                    word_scan(toks, 0, None)
                } else {
                    proof {
                        lemma_first_with_props(toks, 0, 'i');
                        lemma_own_arg_decreases(toks, k);
                    }
                    match parse_toks(own_arg(toks, k)) {
                        None => None,
                        Some(p) => word_scan(toks, k + 1, Some(p)),
                    }
                }
            },
        }
    }
}

/// What a token sequence parses to.  One token must carry the object suffix
/// and is a bare phrase.  More than one token is a verb clause when any
/// token carries the verb suffix, else a phrase when any token carries the
/// object suffix, else nothing; no tokens is nothing.
pub open spec fn parse_toks(toks: Seq<Seq<char>>) -> Option<NodeV>
    decreases weight(toks), i_count(toks), 4nat, 0nat,
{
    if toks.len() == 1 {
        if ends_in(toks[0], 'o') {
            match spec_noun(toks[0].drop_last()) {
                None => None,
                Some(w) => Some(NodeV::Word { word: w, own: None, adj: Seq::empty() }),
            }
        } else {
            None
        }
    } else if toks.len() >= 2 {
        if first_with(toks, 0, 'u') is Some {
            verb_result(toks, first_with(toks, 0, 'u')->Some_0)
        } else if first_with(toks, 0, 'o') is Some {
            word_result(toks)
        } else {
            None
        }
    } else {
        None
    }
}

/// What a sentence parses to: its whitespace tokens, parsed as a clause or
/// phrase.
pub open spec fn spec_parse(s: Seq<char>) -> Option<NodeV> {
    parse_toks(crate::text::split_ws(s))
}

/// A failed modifier sub-parse fails every longer scan too.
pub proof fn lemma_adv_nodes_none(toks: Seq<Seq<char>>, i: int, j: int)
    requires
        i <= j <= toks.len(),
        adv_nodes(toks, i) is None,
    ensures
        adv_nodes(toks, j) is None,
    decreases j - i,
{
    if i < j {
        lemma_adv_nodes_none(toks, i, j - 1);
    }
}

pub proof fn lemma_adj_nodes_none(toks: Seq<Seq<char>>, start: int, i: int, j: int)
    requires
        i <= j <= toks.len(),
        adj_nodes(toks, start, i) is None,
    ensures
        adj_nodes(toks, start, j) is None,
    decreases j - i,
{
    if i < j {
        lemma_adj_nodes_none(toks, start, i, j - 1);
    }
}

/// Copies the tokens in `[from, to)`.
fn subvec(toks: &Vec<String>, from: usize, to: usize) -> (r: Vec<String>)
    requires
        from <= to <= toks.len(),
    ensures
        r.deep_view() == toks.deep_view().subrange(from as int, to as int),
{
    let mut r: Vec<String> = Vec::new();
    let mut i: usize = from;
    while i < to
        invariant
            from <= i <= to <= toks.len(),
            r.deep_view() == toks.deep_view().subrange(from as int, i as int),
        decreases to - i,
    {
        let ghost pre = r.deep_view();
        r.push(toks[i].clone());
        proof {
            assert(r.deep_view() =~= pre.push(toks.deep_view()[i as int]));
            assert(r.deep_view() =~= toks.deep_view().subrange(from as int, i + 1));
        }
        i = i + 1;
    }
    r
}

/// The first token index at or after `from` that ends in `c`.
fn find_suffix(toks: &Vec<String>, from: usize, c: char) -> (r: Option<usize>)
    ensures
        match r {
            Some(j) => from <= j < toks.len() && first_with(toks.deep_view(), from as int, c)
                == Some(j as int),
            None => first_with(toks.deep_view(), from as int, c) is None,
        },
{
    let ghost tv = toks.deep_view();
    let mut i: usize = from;
    if i > toks.len() {
        proof {
            lemma_first_with_props(tv, from as int, c);
        }
        return None;
    }
    while i < toks.len()
        invariant
            from <= i <= toks.len(),
            tv == toks.deep_view(),
            forall|m: int| from <= m < i ==> !ends_in(#[trigger] tv[m], c),
        decreases toks.len() - i,
    {
        proof {
            assert(tv[i as int] == toks@[i as int]@);
        }
        if last_char_is(&toks[i], c) {
            proof {
                lemma_first_with_at(tv, from as int, c, i as int);
            }
            return Some(i);
        }
        i = i + 1;
    }
    proof {
        lemma_first_with_at(tv, from as int, c, tv.len() as int);
    }
    None
}

/// The token with its suffix character replaced by the object suffix.
fn strip_to_o(t: &String) -> (r: String)
    requires
        t@.len() > 0,
    ensures
        r@ == t@.drop_last().push('o'),
{
    let mut r = crate::text::strip_last(t);
    r.append("o");
    proof {
        reveal_strlit("o");
        assert(r@ =~= t@.drop_last().push('o'));
    }
    r
}

/// The token with the object suffix appended after its final character.
fn push_o(t: &String) -> (r: String)
    ensures
        r@ == t@.push('o'),
{
    let mut r = t.clone();
    r.append("o");
    proof {
        reveal_strlit("o");
        assert(r@ =~= t@.push('o'));
    }
    r
}

/// Parses a token sequence, as `parse_toks` describes.
pub fn parse_tokens(toks: &Vec<String>) -> (r: Option<Node>)
    ensures
        opt_view(r) == parse_toks(toks.deep_view()),
    decreases weight(toks.deep_view()), i_count(toks.deep_view()),
{
    let ghost tv = toks.deep_view();
    let n = toks.len();
    proof {
        assert(tv.len() == n);
    }
    if n == 1 {
        proof {
            assert(tv[0] == toks@[0]@);
        }
        if last_char_is(&toks[0], 'o') {
            let st = crate::text::strip_last(&toks[0]);
            match Noun::parse(st.as_str()) {
                None => None,
                Some(w) => {
                    let result = Node::Word { word: w, own: None, adj: Vec::new() };
                    proof {
                        assert(nodes_view(Seq::<Node>::empty()) =~= Seq::<NodeV>::empty());
                        assert(node_view(result) == parse_toks(tv)->Some_0);
                    }
                    Some(result)
                },
            }
        } else {
            None
        }
    } else if n >= 2 {
        match find_suffix(toks, 0, 'u') {
            Some(k) => parse_verb_clause(toks, k),
            None => {
                match find_suffix(toks, 0, 'o') {
                    Some(_) => parse_phrase(toks),
                    None => None,
                }
            },
        }
    } else {
        None
    }
}

/// Parses a verb clause whose first verb-suffixed token sits at `k`.
fn parse_verb_clause(toks: &Vec<String>, k: usize) -> (r: Option<Node>)
    requires
        toks.len() >= 2,
        k < toks.len(),
        first_with(toks.deep_view(), 0, 'u') == Some(k as int),
    ensures
        opt_view(r) == verb_result(toks.deep_view(), k as int),
    decreases weight(toks.deep_view()), i_count(toks.deep_view()), 3nat,
{
    let ghost tv = toks.deep_view();
    proof {
        assert(tv.len() == toks.len());
        lemma_first_with_props(tv, 0, 'u');
    }
    let n = toks.len();
    let mut advs: Vec<Node> = Vec::new();
    let mut subj: Vec<String> = Vec::new();
    let mut temp: Vec<String> = Vec::new();
    let mut flag = false;
    let mut i: usize = 0;
    proof {
        assert(nodes_view(advs@) =~= Seq::<NodeV>::empty());
        assert(adv_nodes(tv, 0) == Some(nodes_view(advs@)));
        assert(subj.deep_view() =~= v_subj(tv, 0));
        assert(temp.deep_view() =~= v_temp(tv, 0));
    }
    while i < k
        invariant
            tv == toks.deep_view(),
            n == toks.len(),
            tv.len() == n,
            n >= 2,
            i <= k < n,
            ends_in(tv[k as int], 'u'),
            forall|m: int| 0 <= m < k ==> !ends_in(#[trigger] tv[m], 'u'),
            adv_nodes(tv, i as int) == Some(nodes_view(advs@)),
            subj.deep_view() == v_subj(tv, i as int),
            temp.deep_view() == v_temp(tv, i as int),
            flag == v_flag(tv, i as int),
        decreases k - i,
    {
        proof {
            assert(tv[i as int] == toks@[i as int]@);
        }
        if last_char_is(&toks[i], 'e') {
            let piece = strip_to_o(&toks[i]);
            let mut arg: Vec<String> = Vec::new();
            arg.append(&mut temp);
            arg.push(piece);
            proof {
                assert(arg.deep_view() =~= v_temp(tv, i as int).push(
                    tv[i as int].drop_last().push('o'),
                ));
                assert(i < k < tv.len() && ends_in(tv[k as int], 'u'));
                lemma_adv_arg_weight(tv, i + 1);
            }
            match parse_tokens(&arg) {
                None => {
                    proof {
                        assert(adv_nodes(tv, i + 1) is None);
                        lemma_adv_nodes_none(tv, i + 1, k as int);
                        assert(verb_result(tv, k as int) is None);
                    }
                    return None;
                },
                Some(nd) => {
                    let ghost pre = advs@;
                    advs.push(nd);
                    proof {
                        assert(advs@ =~= pre.push(nd));
                        lemma_nodes_view_push(pre, nd);
                        assert(adv_nodes(tv, i + 1) == Some(nodes_view(advs@)));
                        assert(temp.deep_view() =~= v_temp(tv, i + 1));
                    }
                },
            }
        } else if last_char_is(&toks[i], 'o') {
            let ghost spre = subj.deep_view();
            subj.push(toks[i].clone());
            flag = true;
            proof {
                assert(subj.deep_view() =~= spre.push(tv[i as int]));
            }
        } else {
            if flag {
                let ghost tpre = temp.deep_view();
                temp.push(toks[i].clone());
                proof {
                    assert(temp.deep_view() =~= tpre.push(tv[i as int]));
                }
            } else {
                let ghost spre = subj.deep_view();
                subj.push(toks[i].clone());
                proof {
                    assert(subj.deep_view() =~= spre.push(tv[i as int]));
                }
            }
        }
        i = i + 1;
    }
    proof {
        assert(tv[k as int] == toks@[k as int]@);
        assert(tv[k as int].len() > 0);
    }
    let vroot = crate::text::strip_last(&toks[k]);
    let vb = match Noun::parse(vroot.as_str()) {
        None => {
            return None;
        },
        Some(w) => w,
    };
    proof {
        lemma_subj_obj_weight(tv, k as int);
    }
    let subj_node: Option<Box<Node>> = if subj.len() == 0 {
        proof {
            assert(v_subj(tv, k as int).len() == 0);
        }
        None
    } else {
        match parse_tokens(&subj) {
            None => {
                return None;
            },
            Some(s) => Some(Box::new(s)),
        }
    };
    let rest = subvec(toks, k + 1, n);
    proof {
        assert(rest.deep_view() =~= tv.skip(k + 1));
    }
    let obj = match parse_tokens(&rest) {
        None => {
            return None;
        },
        Some(o) => Box::new(o),
    };
    let result = Node::Verb { verb: vb, adv: advs, subj: subj_node, obj };
    proof {
        assert(node_view(result) == verb_result(tv, k as int)->Some_0);
    }
    Some(result)
}

/// Parses a phrase from a multi-token sequence without a verb-suffixed
/// token.
fn parse_phrase(toks: &Vec<String>) -> (r: Option<Node>)
    requires
        toks.len() >= 2,
    ensures
        opt_view(r) == word_result(toks.deep_view()),
    decreases weight(toks.deep_view()), i_count(toks.deep_view()), 3nat,
{
    let ghost tv = toks.deep_view();
    proof {
        assert(tv.len() == toks.len());
    }
    let n = toks.len();
    let (own_node, start): (Option<Node>, usize) = match find_suffix(toks, 0, 'i') {
        None => (None, 0),
        Some(k) => {
            proof {
                assert(tv[k as int] == toks@[k as int]@);
                lemma_first_with_props(tv, 0, 'i');
            }
            let object_first = match find_suffix(toks, 0, 'o') {
                Some(j) => j < k,
                None => false,
            };
            proof {
                lemma_first_with_props(tv, 0, 'o');
                if !object_first {
                    assert(!(exists|m: int| 0 <= m < k && ends_in(#[trigger] tv[m], 'o')))
                        by {
                        if exists|m: int| 0 <= m < k && ends_in(#[trigger] tv[m], 'o') {
                            let m = choose|m: int|
                                0 <= m < k && ends_in(#[trigger] tv[m], 'o');
                            assert(first_with(tv, 0, 'o') is Some);
                        }
                    }
                }
            }
            if object_first {
                (None, 0)
            } else {
                let st = crate::text::strip_last(&toks[k]);
                let mut arg: Vec<String>;
                if st.as_str().unicode_len() > 0 {
                    arg = subvec(toks, 0, k);
                    let mut swapped = st;
                    swapped.append("o");
                    proof {
                        reveal_strlit("o");
                        assert(swapped@ =~= tv[k as int].drop_last().push('o'));
                    }
                    let ghost pre = arg.deep_view();
                    arg.push(swapped);
                    proof {
                        assert(arg.deep_view() =~= pre.push(
                            tv[k as int].drop_last().push('o'),
                        ));
                        assert(arg.deep_view() =~= own_arg(tv, k as int));
                    }
                } else if k == 0 {
                    arg = Vec::new();
                    let bare = String::from_str("o");
                    proof {
                        reveal_strlit("o");
                        assert(bare@ =~= seq!['o']);
                    }
                    let ghost pre = arg.deep_view();
                    arg.push(bare);
                    proof {
                        assert(arg.deep_view() =~= Seq::<Seq<char>>::empty().push(seq!['o']));
                        assert(arg.deep_view() =~= own_arg(tv, k as int));
                    }
                } else {
                    arg = subvec(toks, 0, k - 1);
                    proof {
                        assert(tv[k - 1] == toks@[k - 1]@);
                    }
                    let glued = push_o(&toks[k - 1]);
                    let ghost pre = arg.deep_view();
                    arg.push(glued);
                    proof {
                        assert(arg.deep_view() =~= pre.push(tv[k - 1].push('o')));
                        assert(arg.deep_view() =~= own_arg(tv, k as int));
                    }
                }
                proof {
                    lemma_own_arg_decreases(tv, k as int);
                }
                match parse_tokens(&arg) {
                    None => {
                        return None;
                    },
                    Some(p) => (Some(p), k + 1),
                }
            }
        },
    };
    proof {
        assert(word_result(tv) == word_scan(
            tv,
            start as int,
            match own_node {
                Some(p) => Some(node_view(p)),
                None => None,
            },
        ));
    }
    match find_suffix(toks, start, 'o') {
        None => None,
        Some(h) => {
            proof {
                lemma_first_with_props(tv, start as int, 'o');
            }
            let mut adjs: Vec<Node> = Vec::new();
            let mut temp: Vec<String> = Vec::new();
            let mut i: usize = start;
            proof {
                assert(nodes_view(adjs@) =~= Seq::<NodeV>::empty());
                assert(adj_nodes(tv, start as int, start as int) == Some(nodes_view(adjs@)));
                assert(temp.deep_view() =~= w_temp(tv, start as int, start as int));
            }
            while i < h
                invariant
                    tv == toks.deep_view(),
                    n == toks.len(),
                    tv.len() == n,
                    n >= 2,
                    start <= i <= h < n,
                    word_result(tv) == word_scan(
                        tv,
                        start as int,
                        match own_node {
                            Some(p) => Some(node_view(p)),
                            None => None,
                        },
                    ),
                    ends_in(tv[h as int], 'o'),
                    forall|m: int| start <= m < h ==> !ends_in(#[trigger] tv[m], 'o'),
                    adj_nodes(tv, start as int, i as int) == Some(nodes_view(adjs@)),
                    temp.deep_view() == w_temp(tv, start as int, i as int),
                decreases h - i,
            {
                proof {
                    assert(tv[i as int] == toks@[i as int]@);
                }
                if last_char_is(&toks[i], 'a') {
                    let piece = strip_to_o(&toks[i]);
                    let mut arg: Vec<String> = Vec::new();
                    arg.append(&mut temp);
                    arg.push(piece);
                    proof {
                        assert(arg.deep_view() =~= w_temp(tv, start as int, i as int).push(
                            tv[i as int].drop_last().push('o'),
                        ));
                        assert(i < h < tv.len() && ends_in(tv[h as int], 'o'));
                        lemma_adj_arg_weight(tv, start as int, i + 1);
                    }
                    match parse_tokens(&arg) {
                        None => {
                            proof {
                                assert(adj_nodes(tv, start as int, i + 1) is None);
                                lemma_adj_nodes_none(tv, start as int, i + 1, h as int);
                                lemma_first_with_at(tv, start as int, 'o', h as int);
                                assert(word_scan(
                                    tv,
                                    start as int,
                                    match own_node {
                                        Some(p) => Some(node_view(p)),
                                        None => None,
                                    },
                                ) is None);
                            }
                            return None;
                        },
                        Some(nd) => {
                            let ghost pre = adjs@;
                            adjs.push(nd);
                            proof {
                                assert(adjs@ =~= pre.push(nd));
                                lemma_nodes_view_push(pre, nd);
                                assert(adj_nodes(tv, start as int, i + 1) == Some(nodes_view(
                                    adjs@,
                                )));
                                assert(temp.deep_view() =~= w_temp(tv, start as int, i + 1));
                            }
                        },
                    }
                } else {
                    let ghost tpre = temp.deep_view();
                    temp.push(toks[i].clone());
                    proof {
                        assert(temp.deep_view() =~= tpre.push(tv[i as int]));
                    }
                }
                i = i + 1;
            }
            proof {
                assert(tv[h as int] == toks@[h as int]@);
                assert(tv[h as int].len() > 0);
            }
            let hroot = crate::text::strip_last(&toks[h]);
            match Noun::parse(hroot.as_str()) {
                None => None,
                Some(w) => {
                    let result = Node::Word {
                        word: w,
                        own: match own_node {
                            Some(p) => Some(Box::new(p)),
                            None => None,
                        },
                        adj: adjs,
                    };
                    proof {
                        assert(node_view(result) == word_result(tv)->Some_0);
                    }
                    Some(result)
                },
            }
        },
    }
}

impl Node {
    /// Parses one sentence: its whitespace-separated tokens become a clause
    /// or a phrase, exactly as `spec_parse` describes; `None` is the sole
    /// failure outcome.
    pub fn parse(source: &str) -> (r: Option<Node>)
        ensures
            opt_view(r) == spec_parse(source@),
    {
        let toks = crate::text::tokenize(source);
        parse_tokens(&toks)
    }
}

} // verus!
