//! The laws the library keeps, stated and proved over the same spec
//! functions that the executable functions are verified against.

use vstd::prelude::*;
use crate::text::{ends_in, is_ws, good_token, split_ws, token_len, lemma_token_len_at};
use crate::vocab::is_key;
use crate::noun::{
    seg, first_hit, concat_morphs, spec_noun, lemma_first_hit_bounds, lemma_first_hit_at,
};
use crate::node::{
    parse_toks, spec_parse, first_with, verb_result, word_result, word_scan, own_arg, adj_nodes,
    adv_nodes, w_temp, v_subj, v_temp, v_flag, lemma_first_with_props, lemma_first_with_at,
    lemma_subj_obj_weight, lemma_own_arg_decreases, lemma_adj_arg_weight, lemma_adv_arg_weight,
    lemma_v_weights, weight, i_count, NodeV,
};
use crate::render::{fmt_node, fmt_adj_pieces, fmt_adv_pieces, strip_o};

verus! {

/// Exactness of segmentation: whenever the segmenter succeeds, the morphemes
/// it returns are dictionary morphemes, none is empty, and their
/// concatenation reproduces the input exactly — no residue, no overlap.
pub proof fn lemma_seg_exact(s: Seq<char>)
    requires
        seg(s) is Some,
    ensures
        concat_morphs(seg(s)->Some_0) == s,
        forall|i: int|
            0 <= i < seg(s)->Some_0.len() ==> is_key(#[trigger] seg(s)->Some_0[i]) && seg(
                s,
            )->Some_0[i].len() > 0,
    decreases s.len(),
{
    if s.len() == 0 {
        assert(seg(s)->Some_0 =~= Seq::<Seq<char>>::empty());
    } else {
        lemma_first_hit_bounds(s, 1);
        let l = first_hit(s, 1)->Some_0;
        lemma_seg_exact(s.skip(l));
        let rest = seg(s.skip(l))->Some_0;
        let ms = seq![s.take(l)] + rest;
        assert(seg(s)->Some_0 == ms);
        assert(ms.skip(1) =~= rest);
        assert(concat_morphs(ms) == ms[0] + concat_morphs(rest));
        assert(s.take(l) + s.skip(l) =~= s);
        assert(forall|i: int| 1 <= i < ms.len() ==> ms[i] == rest[i - 1]);
    }
}

/// Totality of segmentation, for roots whose morphemes leave the greedy
/// scanner no early exit: every morpheme is in the dictionary and none of
/// its proper prefixes is.  For such a sequence the segmenter, run on the
/// concatenation, succeeds and returns exactly that sequence.  (Without the
/// prefix condition this fails: the dictionary holds both a morpheme and a
/// proper prefix of it, and the scanner commits to the shorter one.)
pub proof fn segmentation_total(ms: Seq<Seq<char>>)
    requires
        forall|i: int| 0 <= i < ms.len() ==> is_key(#[trigger] ms[i]) && ms[i].len() > 0,
        forall|i: int, l: int|
            0 <= i < ms.len() && 1 <= l < ms[i].len() ==> !is_key(#[trigger] ms[i].take(l)),
    ensures
        seg(concat_morphs(ms)) == Some(ms),
    decreases ms.len(),
{
    if ms.len() == 0 {
        assert(ms =~= Seq::<Seq<char>>::empty());
        assert(seg(concat_morphs(ms)) == Some(Seq::<Seq<char>>::empty()));
    } else {
        let m0 = ms[0];
        let s = concat_morphs(ms);
        assert(s == m0 + concat_morphs(ms.skip(1)));
        assert(m0.len() <= s.len());
        assert forall|l: int| 1 <= l < m0.len() implies !is_key(s.take(l)) by {
            assert(s.take(l) =~= m0.take(l));
        }
        assert(s.take(m0.len() as int) =~= m0);
        assert(is_key(s.take(m0.len() as int)));
        lemma_first_hit_at(s, 1, m0.len() as int);
        let tail = ms.skip(1);
        assert(forall|j: int| 0 <= j < tail.len() ==> tail[j] == ms[j + 1]);
        assert forall|j: int, l: int|
            0 <= j < tail.len() && 1 <= l < tail[j].len() implies !is_key(
            #[trigger] tail[j].take(l),
        ) by {
            assert(tail[j] == ms[j + 1]);
        }
        segmentation_total(tail);
        assert(s.skip(m0.len() as int) =~= concat_morphs(tail));
        assert(seg(s) == Some(seq![s.take(m0.len() as int)] + tail));
        assert(seq![s.take(m0.len() as int)] + tail =~= ms);
    }
}

/// The syntactic roles a token can be assigned, decided by its final
/// character alone: the verb, adverb, object, adjective and possessive
/// suffixes, or no suffix at all, in which case the token joins the run
/// being accumulated.
pub enum TokenRole {
    VerbHead,
    Adverbial,
    ObjectHead,
    Adjectival,
    Possessive,
    Bare,
}

/// The role the parser's dispatch assigns to a token.  The scans test
/// exactly these final characters, in this order of precedence.
pub open spec fn token_role(t: Seq<char>) -> TokenRole {
    if ends_in(t, 'u') {
        TokenRole::VerbHead
    } else if ends_in(t, 'e') {
        TokenRole::Adverbial
    } else if ends_in(t, 'o') {
        TokenRole::ObjectHead
    } else if ends_in(t, 'a') {
        TokenRole::Adjectival
    } else if ends_in(t, 'i') {
        TokenRole::Possessive
    } else {
        TokenRole::Bare
    }
}

/// Suffix determinism: two non-empty tokens with the same final character
/// are assigned the same role — interior characters play no part in the
/// dispatch.
pub proof fn suffix_determinism(t1: Seq<char>, t2: Seq<char>)
    requires
        t1.len() > 0,
        t2.len() > 0,
        t1.last() == t2.last(),
    ensures
        token_role(t1) == token_role(t2),
        forall|c: char| ends_in(t1, c) == ends_in(t2, c),
{
}

/// Two token sequences of the same length whose tokens are non-empty and
/// agree on their final characters.
pub open spec fn same_final_chars(toks1: Seq<Seq<char>>, toks2: Seq<Seq<char>>) -> bool {
    toks1.len() == toks2.len() && forall|j: int|
        0 <= j < toks1.len() ==> (#[trigger] toks1[j]).len() > 0 && (#[trigger] toks2[j]).len()
            > 0 && toks1[j].last() == toks2[j].last()
}

/// Suffix determinism at the scan level: where a scan looks for the next
/// token carrying a given suffix, only the final characters of the tokens
/// matter.
pub proof fn suffix_determinism_scan(
    toks1: Seq<Seq<char>>,
    toks2: Seq<Seq<char>>,
    from: int,
    c: char,
)
    requires
        same_final_chars(toks1, toks2),
    ensures
        first_with(toks1, from, c) == first_with(toks2, from, c),
    decreases toks1.len() - from,
{
    if 0 <= from < toks1.len() {
        assert(toks1[from].len() > 0 && toks2[from].len() > 0 && toks1[from].last()
            == toks2[from].last());
        if !ends_in(toks1[from], c) {
            suffix_determinism_scan(toks1, toks2, from + 1, c);
        }
    }
}

/// Clause-object mandatoriness: a token sequence whose last token carries
/// the verb suffix never parses — the scan stops at the first verb-suffixed
/// token, and the object span after the last one is empty, so the innermost
/// clause has no object and every enclosing parse fails with it.
pub proof fn clause_object_mandatory(toks: Seq<Seq<char>>)
    requires
        toks.len() > 0,
        ends_in(toks.last(), 'u'),
    ensures
        parse_toks(toks) is None,
    decreases weight(toks),
{
    if toks.len() == 1 {
        assert(!ends_in(toks[0], 'o'));
    } else {
        lemma_first_with_props(toks, 0, 'u');
        assert(toks.last() == toks[toks.len() - 1]);
        if first_with(toks, 0, 'u') is None {
            assert(!ends_in(toks[toks.len() - 1], 'u'));
            assert(false);
        }
        let k = first_with(toks, 0, 'u')->Some_0;
        if k + 1 == toks.len() {
            assert(toks.skip(k + 1) =~= Seq::<Seq<char>>::empty());
            assert(parse_toks(toks.skip(k + 1)) is None);
        } else {
            let rest = toks.skip(k + 1);
            assert(rest.last() == toks.last());
            lemma_subj_obj_weight(toks, k);
            clause_object_mandatory(rest);
        }
        assert(verb_result(toks, k) is None);
    }
}

/// Clause-object mandatoriness at the sentence level: a sentence whose last
/// word carries the verb suffix never parses.
pub proof fn clause_object_mandatory_sentence(s: Seq<char>)
    requires
        split_ws(s).len() > 0,
        ends_in(split_ws(s).last(), 'u'),
    ensures
        spec_parse(s) is None,
{
    clause_object_mandatory(split_ws(s));
}

/// A single whitespace-free token splits to itself.
pub proof fn lemma_split_single(t: Seq<char>)
    requires
        good_token(t),
    ensures
        split_ws(t) == seq![t],
{
    reveal_with_fuel(split_ws, 3);
    lemma_token_len_at(t, t.len() as int);
    assert(!is_ws(t[0]));
    assert(t.take(t.len() as int) =~= t);
    assert(t.skip(t.len() as int) =~= Seq::<char>::empty());
    assert(split_ws(t) =~= seq![t]);
}

/// A whitespace-free token, a space, and more text split to the token
/// followed by the split of the rest.
pub proof fn lemma_split_cons(t: Seq<char>, rest: Seq<char>)
    requires
        good_token(t),
    ensures
        split_ws(t + seq![' '] + rest) == seq![t] + split_ws(rest),
{
    let s = t + seq![' '] + rest;
    reveal_with_fuel(split_ws, 3);
    assert forall|k: int| 0 <= k < t.len() implies !is_ws(s[k]) by {
        assert(s[k] == t[k]);
    }
    assert(s[t.len() as int] == ' ');
    assert(is_ws(' '));
    lemma_token_len_at(s, t.len() as int);
    assert(!is_ws(s[0]));
    assert(s.take(t.len() as int) =~= t);
    let after = s.skip(t.len() as int);
    assert(after =~= seq![' '] + rest);
    assert(after[0] == ' ');
    assert(after.skip(1) =~= rest);
    assert(split_ws(s) =~= seq![t] + split_ws(rest));
}

/// Where a non-whitespace run ends: the boundary of the leading token.
pub proof fn lemma_token_len_boundary(s: Seq<char>)
    ensures
        token_len(s) <= s.len(),
        token_len(s) < s.len() ==> is_ws(s[token_len(s) as int]),
    decreases s.len(),
{
    crate::text::lemma_token_len_le(s);
    if s.len() > 0 && !is_ws(s[0]) {
        lemma_token_len_boundary(s.skip(1));
        if token_len(s) < s.len() {
            assert(s.skip(1)[token_len(s.skip(1)) as int] == s[token_len(s) as int]);
        }
    }
}

/// Tokenisation distributes over concatenation at a whitespace boundary.
pub proof fn lemma_split_app(a: Seq<char>, b: Seq<char>)
    requires
        a.len() == 0 || is_ws(a.last()),
    ensures
        split_ws(a + b) == split_ws(a) + split_ws(b),
    decreases a.len(),
{
    if a.len() == 0 {
        assert(a + b =~= b);
        assert(split_ws(a) + split_ws(b) =~= split_ws(b));
    } else if is_ws(a[0]) {
        assert((a + b)[0] == a[0]);
        assert((a + b).skip(1) =~= a.skip(1) + b);
        if a.len() == 1 {
            assert(a.skip(1) =~= Seq::<char>::empty());
        } else {
            assert(a.skip(1).last() == a.last());
        }
        lemma_split_app(a.skip(1), b);
        assert(split_ws(a + b) =~= split_ws(a) + split_ws(b));
    } else {
        let l = token_len(a) as int;
        lemma_token_len_boundary(a);
        if l == a.len() {
            crate::text::lemma_token_len_prefix(a, a.len() - 1);
            assert(false);
        }
        assert(is_ws(a[l]));
        assert forall|k: int| 0 <= k < l implies !is_ws((a + b)[k]) by {
            assert((a + b)[k] == a[k]);
            crate::text::lemma_token_len_prefix(a, k);
        }
        assert((a + b)[l] == a[l]);
        lemma_token_len_at(a + b, l);
        assert((a + b).take(l) =~= a.take(l));
        assert((a + b).skip(l) =~= a.skip(l) + b);
        assert(a.skip(l).last() == a.last());
        lemma_split_app(a.skip(l), b);
        assert((a + b)[0] == a[0]);
        assert(split_ws(a + b) =~= split_ws(a) + split_ws(b));
    }
}

/// A leading space is only a separator.
pub proof fn lemma_split_leading_sp(b: Seq<char>)
    ensures
        split_ws(seq![' '] + b) == split_ws(b),
{
    assert(is_ws(' '));
    assert((seq![' '] + b)[0] == ' ');
    assert((seq![' '] + b).skip(1) =~= b);
}

/// A token followed by one space splits to that token alone.
pub proof fn lemma_split_token_sp(t: Seq<char>)
    requires
        good_token(t),
    ensures
        split_ws(t + seq![' ']) == seq![t],
{
    lemma_split_cons(t, Seq::empty());
    assert(t + seq![' '] + Seq::<char>::empty() =~= t + seq![' ']);
    assert(seq![t] + split_ws(Seq::<char>::empty()) =~= seq![t]);
}

/// A root that renders back to itself: re-parsing its concatenated morpheme
/// text yields exactly the same morphemes, and that text is a well-formed
/// token.  Every root the parser itself produces from a token is of this
/// kind.
pub open spec fn canonical_root(ms: Seq<Seq<char>>) -> bool {
    spec_noun(concat_morphs(ms)) == Some(ms) && good_token(concat_morphs(ms))
}

/// Roots made by the parser are canonical: whatever a well-formed token's
/// case-stripped text parses to, the concatenation of the result re-parses
/// to the same morphemes.
pub proof fn lemma_parsed_root_canonical(s: Seq<char>)
    requires
        spec_noun(s) is Some,
        good_token(s),
    ensures
        canonical_root(spec_noun(s)->Some_0),
{
    let ms = spec_noun(s)->Some_0;
    if s.len() > 0 && (crate::text::is_upper(s[0]) || crate::text::is_numeric(s)) {
        assert(ms == seq![s]);
        assert(concat_morphs(ms.skip(1)) == Seq::<char>::empty()) by {
            assert(ms.skip(1) =~= Seq::<Seq<char>>::empty());
        }
        assert(concat_morphs(ms) =~= s);
    } else {
        lemma_seg_exact(s);
        assert(concat_morphs(ms) == s);
    }
}

/// A bare phrase: a canonical head root with no possessor and no modifiers.
pub open spec fn plain_phrase(n: NodeV) -> bool {
    match n {
        NodeV::Word { word, own, adj } => own is None && adj.len() == 0 && canonical_root(word),
        _ => false,
    }
}

/// The surface text of a bare phrase is its head token.
pub proof fn lemma_fmt_plain(n: NodeV)
    requires
        plain_phrase(n),
    ensures
        n matches NodeV::Word { word, .. } && fmt_node(n) == concat_morphs(word).push('o')
            && good_token(fmt_node(n)) && parse_toks(seq![fmt_node(n)]) == Some(n),
{
    match n {
        NodeV::Word { word, own, adj } => {
            assert(adj =~= Seq::<NodeV>::empty());
            assert(fmt_adj_pieces(adj) == Seq::<Seq<char>>::empty());
            let tok = concat_morphs(word).push('o');
            assert(fmt_node(n) =~= tok);
            assert(!is_ws('o'));
            assert forall|k: int| 0 <= k < tok.len() implies !is_ws(tok[k]) by {
                if k < tok.len() - 1 {
                    assert(tok[k] == concat_morphs(word)[k]);
                }
            }
            assert(good_token(tok));
            assert(ends_in(tok, 'o'));
            assert(tok.drop_last() =~= concat_morphs(word));
            let toks = seq![tok];
            assert(parse_toks(toks) == Some(
                NodeV::Word { word, own: None, adj: Seq::<NodeV>::empty() },
            ));
            assert(own == None::<Box<NodeV>>);
        },
        _ => {},
    }
}

/// The root of a node, phrase or clause.
pub open spec fn root_of(n: NodeV) -> Seq<Seq<char>> {
    match n {
        NodeV::Word { word, .. } => word,
        NodeV::Verb { verb, .. } => verb,
    }
}

/// The tokens bare-phrase modifiers render to, with the given suffix.
pub open spec fn mod_toks(ns: Seq<NodeV>, c: char) -> Seq<Seq<char>>
    decreases ns.len(),
{
    if ns.len() == 0 {
        Seq::empty()
    } else {
        mod_toks(ns.drop_last(), c).push(concat_morphs(root_of(ns.last())).push(c))
    }
}

/// A phrase whose possessor is absent and whose modifiers are bare phrases.
pub open spec fn wf_own(n: NodeV) -> bool {
    match n {
        NodeV::Word { word, own, adj } => own is None && canonical_root(word) && forall|j: int|
            0 <= j < adj.len() ==> plain_phrase(#[trigger] adj[j]),
        _ => false,
    }
}



/// The modifier list of a phrase.
pub open spec fn word_adj(n: NodeV) -> Seq<NodeV> {
    match n {
        NodeV::Word { adj, .. } => adj,
        NodeV::Verb { adv, .. } => adv,
    }
}

/// Lengths, elements and well-formedness of rendered modifier tokens.
pub proof fn lemma_mod_toks_props(ns: Seq<NodeV>, c: char)
    requires
        forall|j: int| 0 <= j < ns.len() ==> plain_phrase(#[trigger] ns[j]),
        !is_ws(c),
    ensures
        mod_toks(ns, c).len() == ns.len(),
        forall|j: int|
            0 <= j < ns.len() ==> #[trigger] mod_toks(ns, c)[j] == concat_morphs(
                root_of(ns[j]),
            ).push(c) && good_token(mod_toks(ns, c)[j]) && ends_in(mod_toks(ns, c)[j], c),
    decreases ns.len(),
{
    if ns.len() > 0 {
        let pre = ns.drop_last();
        assert(forall|j: int| 0 <= j < pre.len() ==> pre[j] == ns[j]);
        lemma_mod_toks_props(pre, c);
        let x = ns.last();
        assert(plain_phrase(x));
        let tok = concat_morphs(root_of(x)).push(c);
        assert(good_token(concat_morphs(root_of(x))));
        assert forall|k: int| 0 <= k < tok.len() implies !is_ws(tok[k]) by {
            if k < tok.len() - 1 {
                assert(tok[k] == concat_morphs(root_of(x))[k]);
            }
        }
        assert(good_token(tok));
        assert(forall|j: int|
            0 <= j < pre.len() ==> mod_toks(ns, c)[j] == mod_toks(pre, c)[j]);
    }
}

/// The concatenated modifier pieces of a phrase split to the rendered
/// modifier tokens, and end with a space when there are any.
pub proof fn lemma_joined_fmt(ns: Seq<NodeV>, c: char)
    requires
        forall|j: int| 0 <= j < ns.len() ==> plain_phrase(#[trigger] ns[j]),
        c == 'a' || c == 'e',
    ensures
        ({
            let joined = if c == 'a' {
                concat_morphs(fmt_adj_pieces(ns))
            } else {
                concat_morphs(fmt_adv_pieces(ns))
            };
            &&& split_ws(joined) == mod_toks(ns, c)
            &&& (ns.len() > 0 ==> joined.len() > 0 && joined.last() == ' ')
            &&& (ns.len() == 0 ==> joined == Seq::<char>::empty())
        }),
    decreases ns.len(),
{
    let joined = if c == 'a' {
        concat_morphs(fmt_adj_pieces(ns))
    } else {
        concat_morphs(fmt_adv_pieces(ns))
    };
    assert(!is_ws('a'));
    assert(!is_ws('e'));
    if ns.len() == 0 {
        assert(split_ws(joined) =~= mod_toks(ns, c));
    } else {
        let pre = ns.drop_last();
        assert(forall|j: int| 0 <= j < pre.len() ==> pre[j] == ns[j]);
        lemma_joined_fmt(pre, c);
        lemma_mod_toks_props(ns, c);
        let x = ns.last();
        lemma_fmt_plain(x);
        let tok = concat_morphs(root_of(x)).push(c);
        assert(strip_o(fmt_node(x)) =~= concat_morphs(root_of(x)));
        let piece = strip_o(fmt_node(x)) + (if c == 'a' {
            seq!['a', ' ']
        } else {
            seq!['e', ' ']
        });
        assert(piece =~= tok + seq![' ']);
        assert(good_token(tok)) by {
            assert(mod_toks(ns, c)[ns.len() - 1] == tok);
        }
        lemma_split_token_sp(tok);
        let jpre = if c == 'a' {
            concat_morphs(fmt_adj_pieces(pre))
        } else {
            concat_morphs(fmt_adv_pieces(pre))
        };
        if c == 'a' {
            assert(fmt_adj_pieces(ns) == fmt_adj_pieces(pre).push(piece)) by {
                assert(ns.drop_last() == pre);
            }
            crate::noun::lemma_concat_snoc(fmt_adj_pieces(pre), piece);
        } else {
            assert(fmt_adv_pieces(ns) == fmt_adv_pieces(pre).push(piece)) by {
                assert(ns.drop_last() == pre);
            }
            crate::noun::lemma_concat_snoc(fmt_adv_pieces(pre), piece);
        }
        assert(joined == jpre + piece);
        if pre.len() == 0 {
            assert(jpre =~= Seq::<char>::empty());
            assert(joined =~= tok + seq![' ']);
            assert(split_ws(joined) =~= mod_toks(ns, c));
            assert(joined.last() == ' ');
        } else {
            assert(joined =~= jpre + (tok + seq![' ']));
            lemma_split_app(jpre, tok + seq![' ']);
            assert(split_ws(joined) =~= mod_toks(pre, c).push(tok));
            assert(mod_toks(ns, c) == mod_toks(pre, c).push(tok)) by {
                assert(ns.drop_last() == pre);
            }
            assert(joined.last() == ' ');
        }
    }
}

/// A trailing space is only a separator.
pub proof fn lemma_split_trailing_sp(x: Seq<char>)
    ensures
        split_ws(x + seq![' ']) == split_ws(x),
    decreases x.len(),
{
    reveal_with_fuel(split_ws, 3);
    let s = x + seq![' '];
    if x.len() == 0 {
        assert(s =~= seq![' ']);
        assert(is_ws(s[0]));
        assert(s.skip(1) =~= Seq::<char>::empty());
    } else if is_ws(x[0]) {
        assert(s[0] == x[0]);
        assert(s.skip(1) =~= x.skip(1) + seq![' ']);
        lemma_split_trailing_sp(x.skip(1));
    } else {
        let l = token_len(x) as int;
        lemma_token_len_boundary(x);
        assert forall|k: int| 0 <= k < l implies !is_ws(s[k]) by {
            assert(s[k] == x[k]);
            crate::text::lemma_token_len_prefix(x, k);
        }
        if l < x.len() {
            assert(s[l] == x[l]);
        } else {
            assert(s[l] == ' ');
        }
        lemma_token_len_at(s, l);
        assert(s.take(l) =~= x.take(l));
        assert(s.skip(l) =~= x.skip(l) + seq![' ']);
        lemma_split_trailing_sp(x.skip(l));
        assert(s[0] == x[0]);
        assert(split_ws(s) =~= split_ws(x));
    }
}

/// Walking the adjective scan over rendered bare-phrase modifier tokens
/// collects exactly those modifiers, with nothing pending.
pub proof fn lemma_adj_walk(toks: Seq<Seq<char>>, start: int, adjs: Seq<NodeV>, i: int)
    requires
        0 <= start,
        0 <= i <= adjs.len(),
        start + adjs.len() < toks.len(),
        forall|j: int| 0 <= j < adjs.len() ==> plain_phrase(#[trigger] adjs[j]),
        forall|j: int|
            0 <= j < adjs.len() ==> toks[start + j] == concat_morphs(
                root_of(#[trigger] adjs[j]),
            ).push('a'),
        ends_in(toks[start + adjs.len()], 'o'),
    ensures
        adj_nodes(toks, start, start + i) == Some(adjs.take(i)),
        w_temp(toks, start, start + i) == Seq::<Seq<char>>::empty(),
    decreases i,
{
    if i == 0 {
        assert(adjs.take(0) =~= Seq::<NodeV>::empty());
    } else {
        lemma_adj_walk(toks, start, adjs, i - 1);
        let t = toks[start + i - 1];
        assert(t == concat_morphs(root_of(adjs[i - 1])).push('a'));
        assert(ends_in(t, 'a'));
        assert(!ends_in(t, 'o'));
        assert(start + i - 1 < start + adjs.len() < toks.len() && ends_in(
            toks[start + adjs.len()],
            'o',
        ));
        lemma_fmt_plain(adjs[i - 1]);
        let arg = w_temp(toks, start, start + i - 1).push(t.drop_last().push('o'));
        assert(t.drop_last() =~= concat_morphs(root_of(adjs[i - 1])));
        assert(arg =~= seq![fmt_node(adjs[i - 1])]);
        assert(parse_toks(arg) == Some(adjs[i - 1]));
        assert(adjs.take(i - 1).push(adjs[i - 1]) =~= adjs.take(i));
    }
}

/// A possessor-free phrase parses back from its rendered tokens.
pub proof fn lemma_word_noown(word: Seq<Seq<char>>, adjs: Seq<NodeV>)
    requires
        canonical_root(word),
        forall|j: int| 0 <= j < adjs.len() ==> plain_phrase(#[trigger] adjs[j]),
    ensures
        parse_toks(mod_toks(adjs, 'a') + seq![concat_morphs(word).push('o')]) == Some(
            NodeV::Word { word, own: None, adj: adjs },
        ),
{
    let head = concat_morphs(word).push('o');
    let toks = mod_toks(adjs, 'a') + seq![head];
    assert(!is_ws('a'));
    lemma_mod_toks_props(adjs, 'a');
    assert(toks.len() == adjs.len() + 1);
    assert(toks[adjs.len() as int] == head);
    assert(ends_in(head, 'o'));
    assert(head.drop_last() =~= concat_morphs(word));
    assert(forall|j: int| 0 <= j < adjs.len() ==> toks[j] == mod_toks(adjs, 'a')[j]);
    if adjs.len() == 0 {
        assert(adjs =~= Seq::<NodeV>::empty());
        assert(toks.len() == 1);
        assert(parse_toks(toks) == Some(NodeV::Word { word, own: None, adj: Seq::empty() }));
    } else {
        assert forall|m: int| 0 <= m < toks.len() implies !ends_in(#[trigger] toks[m], 'u')
            && !ends_in(toks[m], 'i') by {
            if m < adjs.len() {
                assert(ends_in(toks[m], 'a'));
            }
        }
        assert forall|m: int| 0 <= m < adjs.len() implies !ends_in(#[trigger] toks[m], 'o') by {
            assert(ends_in(toks[m], 'a'));
        }
        lemma_first_with_at(toks, 0, 'u', toks.len() as int);
        lemma_first_with_at(toks, 0, 'i', toks.len() as int);
        lemma_first_with_at(toks, 0, 'o', adjs.len() as int);
        lemma_adj_walk(toks, 0, adjs, adjs.len() as int);
        assert(adjs.take(adjs.len() as int) =~= adjs);
        assert(word_scan(toks, 0, None::<NodeV>) == Some(
            NodeV::Word { word, own: None, adj: adjs },
        ));
        assert(word_result(toks) == word_scan(toks, 0, None::<NodeV>));
        assert(parse_toks(toks) == word_result(toks));
    }
}




/// A modifier as the scans build one: a canonical head, no modifiers of its
/// own, and at most a bare-phrase possessor.
pub open spec fn wf_mod(n: NodeV) -> bool {
    match n {
        NodeV::Word { word, own, adj } => canonical_root(word) && adj.len() == 0 && (match own {
            Some(p) => plain_phrase(*p),
            None => true,
        }),
        _ => false,
    }
}

/// A phrase as the parser builds one: a canonical head; a possessor, if any,
/// of the `wf_own` shape; modifiers of the `wf_mod` shape; and, when there
/// is no possessor, no modifier has one either, since without a leading
/// possessive run no possessive-suffixed token can reach a modifier's text.
pub open spec fn wf_word_x(n: NodeV) -> bool {
    match n {
        NodeV::Word { word, own, adj } => canonical_root(word) && (match own {
            Some(p) => wf_own(*p),
            None => true,
        }) && (forall|j: int| 0 <= j < adj.len() ==> wf_mod(#[trigger] adj[j])) && (own is None
            ==> forall|j: int| 0 <= j < adj.len() ==> plain_phrase(#[trigger] adj[j])),
        _ => false,
    }
}

/// A tree as the parser builds one: phrases are `wf_word_x`; a clause has a
/// canonical verb root, `wf_word_x` adverbs and subject, a parsed object —
/// and when the subject is absent its adverbs are bare phrases, since the
/// pending-modifier run only opens after a subject token.
pub open spec fn wf_parsed(n: NodeV) -> bool
    decreases n,
{
    match n {
        NodeV::Word { .. } => wf_word_x(n),
        NodeV::Verb { verb, adv, subj, obj } => canonical_root(verb) && (forall|j: int|
            0 <= j < adv.len() ==> wf_word_x(#[trigger] adv[j])) && (match subj {
            Some(sb) => wf_word_x(*sb),
            None => true,
        }) && (subj is None ==> forall|j: int|
            0 <= j < adv.len() ==> plain_phrase(#[trigger] adv[j])) && wf_parsed(*obj),
    }
}

/// Elements of the phrase scan's pending run: they come from the scanned
/// range and carry neither the object nor the adjective suffix.
pub proof fn lemma_w_temp_content(
    toks: Seq<Seq<char>>,
    start: int,
    i: int,
    p: spec_fn(Seq<char>) -> bool,
)
    requires
        0 <= start <= i <= toks.len(),
        forall|m: int| start <= m < i ==> p(toks[m]),
    ensures
        forall|j: int|
            0 <= j < w_temp(toks, start, i).len() ==> p(#[trigger] w_temp(toks, start, i)[j])
                && !ends_in(w_temp(toks, start, i)[j], 'a') && !ends_in(
                w_temp(toks, start, i)[j],
                'o',
            ),
    decreases i - start,
{
    if i > start {
        lemma_w_temp_content(toks, start, i - 1, p);
        let t = toks[i - 1];
        let pre = w_temp(toks, start, i - 1);
        let cur = w_temp(toks, start, i);
        if !ends_in(t, 'o') && !ends_in(t, 'a') {
            assert(cur == pre.push(t));
            assert forall|j: int| 0 <= j < cur.len() implies p(#[trigger] cur[j]) && !ends_in(
                cur[j],
                'a',
            ) && !ends_in(cur[j], 'o') by {
                if j < pre.len() {
                    assert(cur[j] == pre[j]);
                } else {
                    assert(cur[j] == t);
                }
            }
        }
    }
}

/// Elements of the clause scan's pending run: from the scanned range, and
/// carrying none of the verb, adverb or object suffixes.
pub proof fn lemma_v_temp_content(toks: Seq<Seq<char>>, i: int, p: spec_fn(Seq<char>) -> bool)
    requires
        0 <= i <= toks.len(),
        forall|m: int| 0 <= m < i ==> p(toks[m]),
    ensures
        forall|j: int|
            0 <= j < v_temp(toks, i).len() ==> p(#[trigger] v_temp(toks, i)[j]) && !ends_in(
                v_temp(toks, i)[j],
                'u',
            ) && !ends_in(v_temp(toks, i)[j], 'e') && !ends_in(v_temp(toks, i)[j], 'o'),
    decreases i,
{
    if i > 0 {
        lemma_v_temp_content(toks, i - 1, p);
        let t = toks[i - 1];
        let pre = v_temp(toks, i - 1);
        let cur = v_temp(toks, i);
        if !ends_in(t, 'u') && !ends_in(t, 'e') && !ends_in(t, 'o') && v_flag(toks, i - 1) {
            assert(cur == pre.push(t));
            assert forall|j: int| 0 <= j < cur.len() implies p(#[trigger] cur[j]) && !ends_in(
                cur[j],
                'u',
            ) && !ends_in(cur[j], 'e') && !ends_in(cur[j], 'o') by {
                if j < pre.len() {
                    assert(cur[j] == pre[j]);
                } else {
                    assert(cur[j] == t);
                }
            }
        }
    }
}

/// Elements of the clause scan's subject buffer: from the scanned range, and
/// carrying neither the verb nor the adverb suffix.
pub proof fn lemma_v_subj_content(toks: Seq<Seq<char>>, i: int, p: spec_fn(Seq<char>) -> bool)
    requires
        0 <= i <= toks.len(),
        forall|m: int| 0 <= m < i ==> p(toks[m]),
    ensures
        forall|j: int|
            0 <= j < v_subj(toks, i).len() ==> p(#[trigger] v_subj(toks, i)[j]) && !ends_in(
                v_subj(toks, i)[j],
                'u',
            ) && !ends_in(v_subj(toks, i)[j], 'e'),
    decreases i,
{
    if i > 0 {
        lemma_v_subj_content(toks, i - 1, p);
        let t = toks[i - 1];
        let pre = v_subj(toks, i - 1);
        let cur = v_subj(toks, i);
        if cur != pre {
            assert(cur == pre.push(t));
            assert forall|j: int| 0 <= j < cur.len() implies p(#[trigger] cur[j]) && !ends_in(
                cur[j],
                'u',
            ) && !ends_in(cur[j], 'e') by {
                if j < pre.len() {
                    assert(cur[j] == pre[j]);
                } else {
                    assert(cur[j] == t);
                }
            }
        }
    }
}

/// Once the flag is up it stays up, and it implies a non-empty subject
/// buffer: only an object-suffixed token raises it, and that token is in
/// the buffer.
pub proof fn lemma_v_flag_subj(toks: Seq<Seq<char>>, i: int, j: int)
    requires
        0 <= i <= j,
    ensures
        v_flag(toks, i) ==> v_flag(toks, j),
        v_flag(toks, j) ==> v_subj(toks, j).len() > 0,
    decreases j,
{
    if j > 0 {
        if i < j {
            lemma_v_flag_subj(toks, i, j - 1);
        } else {
            lemma_v_flag_subj(toks, 0, j - 1);
        }
    }
}

/// A token with its final character replaced stays well formed.
pub proof fn lemma_swap_good(t: Seq<char>, c: char)
    requires
        good_token(t),
        !is_ws(c),
    ensures
        good_token(t.drop_last().push(c)),
{
    let r = t.drop_last().push(c);
    assert forall|k: int| 0 <= k < r.len() implies !is_ws(r[k]) by {
        if k < r.len() - 1 {
            assert(r[k] == t[k]);
        }
    }
}

/// With no adjective-suffixed token in range, the scan commits no modifier.
pub proof fn lemma_adj_nodes_no_a(toks: Seq<Seq<char>>, start: int, i: int)
    requires
        0 <= start <= i <= toks.len(),
        forall|m: int| start <= m < i ==> !ends_in(#[trigger] toks[m], 'a'),
    ensures
        adj_nodes(toks, start, i) == Some(Seq::<NodeV>::empty()),
    decreases i - start,
{
    if i > start {
        lemma_adj_nodes_no_a(toks, start, i - 1);
    }
}

/// A successful root parse is of a non-empty, well-formed stripped token.
pub proof fn lemma_head_canonical(t: Seq<char>)
    requires
        good_token(t),
        spec_noun(t.drop_last()) is Some,
    ensures
        canonical_root(spec_noun(t.drop_last())->Some_0),
{
    let s = t.drop_last();
    assert(s.len() > 0);
    assert forall|k: int| 0 <= k < s.len() implies !is_ws(s[k]) by {
        assert(s[k] == t[k]);
    }
    lemma_parsed_root_canonical(s);
}

/// Tokens handed to the possessor sub-parse: those before the run keep
/// their properties, and the re-suffixed last token is well formed and
/// carries the object suffix.
pub proof fn lemma_own_arg_toks(toks: Seq<Seq<char>>, k: int, c: char)
    requires
        0 <= k < toks.len(),
        toks.len() >= 2,
        ends_in(toks[k], 'i'),
        c != 'o',
        !is_ws(c),
        forall|m: int|
            0 <= m < k ==> good_token(#[trigger] toks[m]) && !ends_in(toks[m], c),
        good_token(toks[k]),
        k > 0 ==> good_token(toks[k - 1]),
    ensures
        forall|j: int|
            0 <= j < own_arg(toks, k).len() ==> good_token(#[trigger] own_arg(toks, k)[j])
                && !ends_in(own_arg(toks, k)[j], c),
        own_arg(toks, k).len() >= 1,
{
    let st = toks[k].drop_last();
    let arg = own_arg(toks, k);
    assert(!is_ws('o'));
    if st.len() > 0 {
        lemma_swap_good(toks[k], 'o');
        assert forall|j: int| 0 <= j < arg.len() implies good_token(#[trigger] arg[j])
            && !ends_in(arg[j], c) by {
            if j < k {
                assert(arg[j] == toks[j]);
            } else {
                assert(arg[j] == st.push('o'));
                assert(arg[j].last() == 'o');
            }
        }
    } else if k == 0 {
        assert(arg == seq![seq!['o']]);
        assert forall|j: int| 0 <= j < arg.len() implies good_token(#[trigger] arg[j])
            && !ends_in(arg[j], c) by {
            assert(arg[j] == seq!['o']);
            assert(arg[j][0] == 'o');
            assert(arg[j].last() == 'o');
        }
    } else {
        let glued = toks[k - 1].push('o');
        assert(good_token(glued)) by {
            assert forall|m: int| 0 <= m < glued.len() implies !is_ws(glued[m]) by {
                if m < glued.len() - 1 {
                    assert(glued[m] == toks[k - 1][m]);
                }
            }
        }
        assert forall|j: int| 0 <= j < arg.len() implies good_token(#[trigger] arg[j])
            && !ends_in(arg[j], c) by {
            if j < k - 1 {
                assert(arg[j] == toks[j]);
            } else {
                assert(arg[j] == glued);
                assert(arg[j].last() == 'o');
            }
        }
    }
}

/// What a phrase parse yields from tokens without verb or adjective
/// suffixes: a modifier-shaped phrase; and a bare phrase when there is no
/// possessive suffix either.
#[verifier::rlimit(100)]
pub proof fn lemma_parse_mod(toks: Seq<Seq<char>>)
    requires
        forall|j: int| 0 <= j < toks.len() ==> good_token(#[trigger] toks[j]),
        forall|j: int| 0 <= j < toks.len() ==> !ends_in(#[trigger] toks[j], 'u'),
        forall|j: int| 0 <= j < toks.len() ==> !ends_in(#[trigger] toks[j], 'a'),
    ensures
        match parse_toks(toks) {
            Some(n) => wf_mod(n) && ((forall|j: int|
                0 <= j < toks.len() ==> !ends_in(#[trigger] toks[j], 'i')) ==> plain_phrase(n)),
            None => true,
        },
    decreases weight(toks), i_count(toks), 2nat, 0nat,
{
    if parse_toks(toks) is Some {
        if toks.len() == 1 {
            if spec_noun((toks[0]).drop_last()) is Some {
                lemma_head_canonical(toks[0]);
            }
        } else {
            lemma_first_with_props(toks, 0, 'u');
            if first_with(toks, 0, 'u') is Some {
                let k = first_with(toks, 0, 'u')->Some_0;
                assert(false);
            }
            lemma_first_with_props(toks, 0, 'i');
            match first_with(toks, 0, 'i') {
                None => {
                    lemma_first_with_props(toks, 0, 'o');
                    match first_with(toks, 0, 'o') {
                        None => {
                            assert(false);
                        },
                        Some(h) => {
                            lemma_adj_nodes_no_a(toks, 0, h);
                            if spec_noun((toks[h]).drop_last()) is Some {
                                lemma_head_canonical(toks[h]);
                            }
                        },
                    }
                },
                Some(k) => {
                    if exists|m: int| 0 <= m < k && ends_in(#[trigger] toks[m], 'o') {
                        lemma_first_with_props(toks, 0, 'o');
                        match first_with(toks, 0, 'o') {
                            None => {
                                let m = choose|m: int|
                                    0 <= m < k && ends_in(#[trigger] toks[m], 'o');
                                assert(false);
                            },
                            Some(h) => {
                                lemma_adj_nodes_no_a(toks, 0, h);
                                if spec_noun((toks[h]).drop_last()) is Some {
                                    lemma_head_canonical(toks[h]);
                                }
                            },
                        }
                    } else {
                        let arg = own_arg(toks, k);
                        lemma_own_arg_toks(toks, k, 'u');
                        lemma_own_arg_toks(toks, k, 'a');
                        lemma_own_arg_toks(toks, k, 'i');
                        lemma_own_arg_decreases(toks, k);
                        lemma_parse_mod(arg);
                        match parse_toks(arg) {
                            None => {},
                            Some(p) => {
                                assert(plain_phrase(p));
                                lemma_first_with_props(toks, k + 1, 'o');
                                match first_with(toks, k + 1, 'o') {
                                    None => {
                                        assert(word_scan(toks, k + 1, Some(p)) is None);
                                        assert(word_result(toks) is None);
                                        assert(false);
                                    },
                                    Some(h) => {
                                        lemma_adj_nodes_no_a(toks, k + 1, h);
                                        if spec_noun((toks[h]).drop_last()) is Some {
                                            lemma_head_canonical(toks[h]);
                                        }
                                        assert(ends_in(toks[k], 'i'));
                                    },
                                }
                            },
                        }
                    }
                },
            }
        }
    }
}

/// Every modifier the phrase scan commits is modifier-shaped; with no
/// possessive suffix in the scanned range, every one is a bare phrase.
#[verifier::rlimit(100)]
pub proof fn lemma_adj_nodes_wf(toks: Seq<Seq<char>>, start: int, i: int)
    requires
        0 <= start <= i <= toks.len(),
        forall|m: int|
            start <= m < i ==> good_token(#[trigger] toks[m]) && !ends_in(toks[m], 'u'),
    ensures
        match adj_nodes(toks, start, i) {
            Some(l) => (forall|j: int| 0 <= j < l.len() ==> wf_mod(#[trigger] l[j])) && ((
            forall|m: int| start <= m < i ==> !ends_in(#[trigger] toks[m], 'i')) ==> forall|
                j: int,
            |
                0 <= j < l.len() ==> plain_phrase(#[trigger] l[j])),
            None => true,
        },
    decreases weight(toks), i_count(toks), 1nat, i,
{
    if i > start && adj_nodes(toks, start, i) is Some {
        lemma_adj_nodes_wf(toks, start, i - 1);
        let t = toks[i - 1];
        let pre = adj_nodes(toks, start, i - 1)->Some_0;
        let l = adj_nodes(toks, start, i)->Some_0;
        if !ends_in(t, 'o') && ends_in(t, 'a') && (exists|j: int|
            i - 1 < j < toks.len() && ends_in(#[trigger] toks[j], 'o')) {
            let gp = |t: Seq<char>| good_token(t) && !ends_in(t, 'u');
            lemma_w_temp_content(toks, start, i - 1, gp);
            let temp = w_temp(toks, start, i - 1);
            let x = t.drop_last().push('o');
            lemma_swap_good(t, 'o');
            let arg = temp.push(x);
            assert forall|j: int| 0 <= j < arg.len() implies good_token(#[trigger] arg[j])
                && !ends_in(arg[j], 'u') && !ends_in(arg[j], 'a') by {
                if j < temp.len() {
                    assert(arg[j] == temp[j]);
                    assert(gp(temp[j]));
                } else {
                    assert(arg[j] == x);
                    assert(arg[j].last() == 'o');
                }
            }
            lemma_adj_arg_weight(toks, start, i);
            lemma_parse_mod(arg);
            let nd = parse_toks(arg)->Some_0;
            assert(l == pre.push(nd));
            assert(forall|j: int| 0 <= j < pre.len() ==> l[j] == pre[j]);
            assert(l[l.len() - 1] == nd);
            if forall|m: int| start <= m < i ==> !ends_in(#[trigger] toks[m], 'i') {
                let ip = |t: Seq<char>| !ends_in(t, 'i');
                lemma_w_temp_content(toks, start, i - 1, ip);
                assert forall|j: int| 0 <= j < arg.len() implies !ends_in(
                    #[trigger] arg[j],
                    'i',
                ) by {
                    if j < temp.len() {
                        assert(arg[j] == temp[j]);
                        assert(ip(temp[j]));
                    } else {
                        assert(arg[j] == x);
                        assert(arg[j].last() == 'o');
                    }
                }
                assert(plain_phrase(nd));
            }
        } else {
            assert(l == pre);
        }
    }
}

/// What a phrase parse yields from tokens without verb or possessive
/// suffixes: a possessor-shaped phrase.
#[verifier::rlimit(100)]
pub proof fn lemma_parse_own(toks: Seq<Seq<char>>)
    requires
        forall|j: int| 0 <= j < toks.len() ==> good_token(#[trigger] toks[j]),
        forall|j: int| 0 <= j < toks.len() ==> !ends_in(#[trigger] toks[j], 'u'),
        forall|j: int| 0 <= j < toks.len() ==> !ends_in(#[trigger] toks[j], 'i'),
    ensures
        match parse_toks(toks) {
            Some(n) => wf_own(n),
            None => true,
        },
    decreases weight(toks), i_count(toks), 3nat, 0nat,
{
    if parse_toks(toks) is Some {
        if toks.len() == 1 {
            if spec_noun((toks[0]).drop_last()) is Some {
                lemma_head_canonical(toks[0]);
            }
        } else {
            lemma_first_with_props(toks, 0, 'u');
            if first_with(toks, 0, 'u') is Some {
                let k = first_with(toks, 0, 'u')->Some_0;
                assert(false);
            }
            lemma_first_with_props(toks, 0, 'i');
            if first_with(toks, 0, 'i') is Some {
                let k = first_with(toks, 0, 'i')->Some_0;
                assert(false);
            }
            lemma_first_with_props(toks, 0, 'o');
            match first_with(toks, 0, 'o') {
                None => {
                    assert(false);
                },
                Some(h) => {
                    lemma_adj_nodes_wf(toks, 0, h);
                    assert(forall|m: int| 0 <= m < h ==> !ends_in(#[trigger] toks[m], 'i'));
                    match adj_nodes(toks, 0, h) {
                        None => {
                            assert(word_scan(toks, 0, None::<NodeV>) is None);
                            assert(word_result(toks) is None);
                            assert(false);
                        },
                        Some(l) => {
                            assert(forall|j: int|
                                0 <= j < l.len() ==> plain_phrase(#[trigger] l[j]));
                            assert(word_result(toks) == word_scan(toks, 0, None::<NodeV>));
                        },
                    }
                    if spec_noun((toks[h]).drop_last()) is Some {
                        lemma_head_canonical(toks[h]);
                    }
                },
            }
        }
    }
}

/// What a phrase parse yields from tokens without the verb suffix: a phrase
/// of the shape the parser keeps.
#[verifier::rlimit(100)]
pub proof fn lemma_parse_word(toks: Seq<Seq<char>>)
    requires
        forall|j: int| 0 <= j < toks.len() ==> good_token(#[trigger] toks[j]),
        forall|j: int| 0 <= j < toks.len() ==> !ends_in(#[trigger] toks[j], 'u'),
    ensures
        match parse_toks(toks) {
            Some(n) => wf_word_x(n) && n matches NodeV::Word { .. },
            None => true,
        },
    decreases weight(toks), i_count(toks), 4nat, 0nat,
{
    if parse_toks(toks) is Some {
        if toks.len() == 1 {
            if spec_noun((toks[0]).drop_last()) is Some {
                lemma_head_canonical(toks[0]);
            }
        } else {
            lemma_first_with_props(toks, 0, 'u');
            if first_with(toks, 0, 'u') is Some {
                let k = first_with(toks, 0, 'u')->Some_0;
                assert(false);
            }
            lemma_first_with_props(toks, 0, 'i');
            match first_with(toks, 0, 'i') {
                None => {
                    lemma_first_with_props(toks, 0, 'o');
                    match first_with(toks, 0, 'o') {
                        None => {
                            assert(false);
                        },
                        Some(h) => {
                            lemma_adj_nodes_wf(toks, 0, h);
                            if spec_noun((toks[h]).drop_last()) is Some {
                                lemma_head_canonical(toks[h]);
                            }
                        },
                    }
                },
                Some(k) => {
                    if exists|m: int| 0 <= m < k && ends_in(#[trigger] toks[m], 'o') {
                        lemma_first_with_props(toks, 0, 'o');
                        match first_with(toks, 0, 'o') {
                            None => {
                                let m = choose|m: int|
                                    0 <= m < k && ends_in(#[trigger] toks[m], 'o');
                                assert(false);
                            },
                            Some(h) => {
                                assert(h < k);
                                lemma_adj_nodes_wf(toks, 0, h);
                                assert(forall|m: int|
                                    0 <= m < h ==> !ends_in(#[trigger] toks[m], 'i'));
                                if spec_noun((toks[h]).drop_last()) is Some {
                                    lemma_head_canonical(toks[h]);
                                }
                            },
                        }
                    } else {
                        let arg = own_arg(toks, k);
                        lemma_own_arg_toks(toks, k, 'u');
                        lemma_own_arg_toks(toks, k, 'i');
                        lemma_own_arg_decreases(toks, k);
                        lemma_parse_own(arg);
                        match parse_toks(arg) {
                            None => {},
                            Some(p) => {
                                assert(wf_own(p));
                                lemma_first_with_props(toks, k + 1, 'o');
                                match first_with(toks, k + 1, 'o') {
                                    None => {
                                        assert(word_scan(toks, k + 1, Some(p)) is None);
                                        assert(word_result(toks) is None);
                                        assert(false);
                                    },
                                    Some(h) => {
                                        lemma_adj_nodes_wf(toks, k + 1, h);
                                        if spec_noun((toks[h]).drop_last()) is Some {
                                            lemma_head_canonical(toks[h]);
                                        }
                                    },
                                }
                            },
                        }
                    }
                },
            }
        }
    }
}

/// Every adverb the clause scan commits is a phrase of the parser's shape;
/// while the flag is down, every one is a bare phrase.
#[verifier::rlimit(100)]
pub proof fn lemma_adv_nodes_wf(toks: Seq<Seq<char>>, i: int)
    requires
        0 <= i <= toks.len(),
        forall|m: int|
            0 <= m < i ==> good_token(#[trigger] toks[m]) && !ends_in(toks[m], 'u'),
    ensures
        match adv_nodes(toks, i) {
            Some(l) => (forall|j: int| 0 <= j < l.len() ==> wf_word_x(#[trigger] l[j])) && (
            !v_flag(toks, i) ==> forall|j: int|
                0 <= j < l.len() ==> plain_phrase(#[trigger] l[j])),
            None => true,
        },
    decreases weight(toks), i_count(toks), 5nat, i,
{
    if i > 0 && adv_nodes(toks, i) is Some {
        lemma_adv_nodes_wf(toks, i - 1);
        let t = toks[i - 1];
        let pre = adv_nodes(toks, i - 1)->Some_0;
        let l = adv_nodes(toks, i)->Some_0;
        if !ends_in(t, 'u') && ends_in(t, 'e') && (exists|j: int|
            i - 1 < j < toks.len() && ends_in(#[trigger] toks[j], 'u')) {
            let gp = |t: Seq<char>| good_token(t) && !ends_in(t, 'u');
            lemma_v_temp_content(toks, i - 1, gp);
            let temp = v_temp(toks, i - 1);
            let x = t.drop_last().push('o');
            lemma_swap_good(t, 'o');
            let arg = temp.push(x);
            assert forall|j: int| 0 <= j < arg.len() implies good_token(#[trigger] arg[j])
                && !ends_in(arg[j], 'u') by {
                if j < temp.len() {
                    assert(arg[j] == temp[j]);
                    assert(gp(temp[j]));
                } else {
                    assert(arg[j] == x);
                    assert(arg[j].last() == 'o');
                }
            }
            lemma_adv_arg_weight(toks, i);
            lemma_parse_word(arg);
            let nd = parse_toks(arg)->Some_0;
            assert(l == pre.push(nd));
            assert(forall|j: int| 0 <= j < pre.len() ==> l[j] == pre[j]);
            assert(l[l.len() - 1] == nd);
            if !v_flag(toks, i) {
                lemma_v_flag_subj(toks, i - 1, i);
                assert(!v_flag(toks, i - 1));
                lemma_v_weights(toks, i - 1);
                assert(temp.len() == 0);
                assert(arg =~= seq![x]);
                assert(parse_toks(arg) is Some);
                if spec_noun((x).drop_last()) is Some {
                    lemma_head_canonical(x);
                }
                assert(plain_phrase(nd));
            }
        } else {
            assert(l == pre);
        }
    }
}

/// Every tree the parser yields is of the parser's shape: the data model's
/// invariants, derived for every successful parse.
#[verifier::rlimit(100)]
pub proof fn lemma_parse_tree(toks: Seq<Seq<char>>)
    requires
        forall|j: int| 0 <= j < toks.len() ==> good_token(#[trigger] toks[j]),
    ensures
        match parse_toks(toks) {
            Some(n) => wf_parsed(n),
            None => true,
        },
    decreases weight(toks), i_count(toks), 6nat, 0nat,
{
    if parse_toks(toks) is Some {
        if toks.len() == 1 {
            if spec_noun((toks[0]).drop_last()) is Some {
                lemma_head_canonical(toks[0]);
            }
        } else {
            lemma_first_with_props(toks, 0, 'u');
            match first_with(toks, 0, 'u') {
                None => {
                    lemma_parse_word(toks);
                },
                Some(k) => {
                    lemma_adv_nodes_wf(toks, k);
                    if spec_noun((toks[k]).drop_last()) is Some {
                        lemma_head_canonical(toks[k]);
                    }
                    let sub = v_subj(toks, k);
                    if sub.len() == 0 {
                        lemma_v_flag_subj(toks, k, k);
                        assert(!v_flag(toks, k));
                    } else {
                        let gp = |t: Seq<char>| good_token(t) && !ends_in(t, 'u');
                        lemma_v_subj_content(toks, k, gp);
                        assert forall|j: int| 0 <= j < sub.len() implies good_token(
                            #[trigger] sub[j],
                        ) && !ends_in(sub[j], 'u') by {
                            assert(gp(sub[j]));
                        }
                        lemma_subj_obj_weight(toks, k);
                        lemma_parse_word(sub);
                    }
                    let rest = toks.skip(k + 1);
                    assert forall|j: int| 0 <= j < rest.len() implies good_token(
                        #[trigger] rest[j],
                    ) by {
                        assert(rest[j] == toks[k + 1 + j]);
                    }
                    lemma_subj_obj_weight(toks, k);
                    lemma_parse_tree(rest);
                },
            }
        }
    }
}

/// The data model's invariants at the sentence level: whatever a sentence
/// parses to is of the parser's shape.
pub proof fn lemma_parse_wf(s: Seq<char>)
    requires
        spec_parse(s) is Some,
    ensures
        wf_parsed(spec_parse(s)->Some_0),
{
    crate::text::lemma_split_ws_tokens(s);
    lemma_parse_tree(split_ws(s));
}

/// The tokens one modifier renders to, its head suffixed `c`: the bare
/// possessor's token, if any, then the head token.
pub open spec fn mod_seg(m: NodeV, c: char) -> Seq<Seq<char>> {
    match m {
        NodeV::Word { word, own, .. } => (match own {
            Some(p) => seq![concat_morphs(root_of(*p)).push('i')],
            None => Seq::<Seq<char>>::empty(),
        }).push(concat_morphs(word).push(c)),
        _ => Seq::empty(),
    }
}

/// The tokens a modifier list renders to, in order.
pub open spec fn mods_toks(ns: Seq<NodeV>, c: char) -> Seq<Seq<char>>
    decreases ns,
{
    if ns.len() == 0 {
        Seq::empty()
    } else {
        mods_toks(ns.drop_last(), c) + mod_seg(ns.last(), c)
    }
}

pub proof fn lemma_mods_toks_snoc(ns: Seq<NodeV>, x: NodeV, c: char)
    ensures
        mods_toks(ns.push(x), c) == mods_toks(ns, c) + mod_seg(x, c),
{
    assert(ns.push(x).drop_last() =~= ns);
    assert(ns.push(x).last() == x);
}

/// The tokens a phrase of the parser's shape renders to: the possessor's
/// modifier and head tokens, each modifier's tokens, then the head token.
pub open spec fn word_toks_x(n: NodeV) -> Seq<Seq<char>> {
    match n {
        NodeV::Word { word, own, adj } => (match own {
            Some(p) => mod_toks(word_adj(*p), 'a').push(concat_morphs(root_of(*p)).push('i')),
            None => Seq::empty(),
        }) + mods_toks(adj, 'a') + seq![concat_morphs(word).push('o')],
        _ => Seq::empty(),
    }
}

/// The rendered text of a phrase before its head token.
pub open spec fn word_prefix_str(n: NodeV) -> Seq<char> {
    match n {
        NodeV::Word { word, own, adj } => (match own {
            Some(p) => strip_o(fmt_node(*p)) + seq!['i', ' '],
            None => Seq::empty(),
        }) + concat_morphs(fmt_adj_pieces(adj)),
        _ => Seq::empty(),
    }
}

/// A modifier's one or two tokens parse back to exactly that modifier.
#[verifier::rlimit(100)]
pub proof fn lemma_mod_parse(m: NodeV)
    requires
        wf_mod(m),
    ensures
        parse_toks(word_toks_x(m)) == Some(m),
        word_toks_x(m) == mod_seg(m, 'o'),
        forall|j: int|
            0 <= j < word_toks_x(m).len() ==> good_token(#[trigger] word_toks_x(m)[j])
                && !ends_in(word_toks_x(m)[j], 'u') && !ends_in(word_toks_x(m)[j], 'e')
                && !ends_in(word_toks_x(m)[j], 'a'),
        ends_in(word_toks_x(m).last(), 'o'),
        forall|j: int|
            0 <= j < word_toks_x(m).len() - 1 ==> !ends_in(#[trigger] word_toks_x(m)[j], 'o'),
{
    match m {
        NodeV::Word { word, own, adj } => {
            assert(adj =~= Seq::<NodeV>::empty());
            let head = concat_morphs(word).push('o');
            assert(!is_ws('o'));
            assert(!is_ws('i'));
            assert(good_token(concat_morphs(word)));
            assert forall|k: int| 0 <= k < head.len() implies !is_ws(head[k]) by {
                if k < head.len() - 1 {
                    assert(head[k] == concat_morphs(word)[k]);
                }
            }
            assert(good_token(head));
            match own {
                None => {
                    let toks = word_toks_x(m);
                    assert(toks =~= seq![head]);
                    assert(mod_seg(m, 'o') =~= seq![head]);
                    assert(head.drop_last() =~= concat_morphs(word));
                    assert(parse_toks(toks) == Some(
                        NodeV::Word { word, own: None, adj: Seq::empty() },
                    ));
                    assert(own == None::<Box<NodeV>>);
                },
                Some(p) => {
                    let pw = root_of(*p);
                    match *p {
                        NodeV::Word { word: pw2, own: po, adj: pa } => {
                            assert(po == None::<Box<NodeV>>);
                            assert(pa =~= Seq::<NodeV>::empty());
                        },
                        _ => {
                            assert(false);
                        },
                    }
                    assert(*p == NodeV::Word { word: pw, own: None, adj: Seq::empty() });
                    let ptok = concat_morphs(pw).push('i');
                    assert(good_token(concat_morphs(pw)));
                    assert forall|k: int| 0 <= k < ptok.len() implies !is_ws(ptok[k]) by {
                        if k < ptok.len() - 1 {
                            assert(ptok[k] == concat_morphs(pw)[k]);
                        }
                    }
                    assert(good_token(ptok));
                    let toks = word_toks_x(m);
                    assert(word_adj(*p) =~= Seq::<NodeV>::empty());
                    assert(mod_toks(word_adj(*p), 'a') =~= Seq::<Seq<char>>::empty());
                    assert(toks =~= seq![ptok, head]);
                    assert(mod_seg(m, 'o') =~= seq![ptok, head]);
                    assert(toks.len() == 2);
                    assert(toks[0] == ptok && toks[1] == head);
                    assert(ends_in(ptok, 'i') && !ends_in(ptok, 'u') && !ends_in(ptok, 'o'));
                    assert(ends_in(head, 'o') && !ends_in(head, 'u'));
                    lemma_first_with_at(toks, 0, 'u', 2);
                    lemma_first_with_at(toks, 0, 'o', 1);
                    lemma_first_with_at(toks, 0, 'i', 0);
                    let st = ptok.drop_last();
                    assert(st =~= concat_morphs(pw));
                    assert(st.len() > 0);
                    let arg = own_arg(toks, 0);
                    assert(toks.take(0) =~= Seq::<Seq<char>>::empty());
                    assert(arg =~= seq![concat_morphs(pw).push('o')]);
                    let phead = concat_morphs(pw).push('o');
                    assert(phead.drop_last() =~= concat_morphs(pw));
                    assert(ends_in(phead, 'o'));
                    assert(parse_toks(arg) == Some(*p));
                    lemma_first_with_at(toks, 1, 'o', 1);
                    assert(head.drop_last() =~= concat_morphs(word));
                    assert(adj_nodes(toks, 1, 1) == Some(Seq::<NodeV>::empty()));
                    assert(word_scan(toks, 1, Some(*p)) == Some(
                        NodeV::Word { word, own: Some(Box::new(*p)), adj: Seq::empty() },
                    ));
                    assert(Box::new(*p) == p);
                    assert(!(exists|mm: int| 0 <= mm < 0 && ends_in(#[trigger] toks[mm], 'o')));
                    assert(word_result(toks) == Some(m));
                    assert(parse_toks(toks) == word_result(toks));
                },
            }
        },
        _ => {
            assert(false);
        },
    }
}

/// Rendered modifier tokens: each ends in the possessive suffix or the
/// closing suffix, and all are well formed; with bare-phrase modifiers only
/// the closing suffix occurs.
#[verifier::rlimit(100)]
pub proof fn lemma_mods_props(ns: Seq<NodeV>, c: char)
    requires
        forall|j: int| 0 <= j < ns.len() ==> wf_mod(#[trigger] ns[j]),
        !is_ws(c),
        c != 'i',
        c != 'u',
        c != 'o',
    ensures
        forall|j: int|
            0 <= j < mods_toks(ns, c).len() ==> good_token(#[trigger] mods_toks(ns, c)[j]) && (
            ends_in(mods_toks(ns, c)[j], 'i') || ends_in(mods_toks(ns, c)[j], c)),
        (forall|j: int| 0 <= j < ns.len() ==> plain_phrase(#[trigger] ns[j])) ==> forall|j: int|
            0 <= j < mods_toks(ns, c).len() ==> ends_in(#[trigger] mods_toks(ns, c)[j], c),
    decreases ns,
{
    if ns.len() > 0 {
        let pre = ns.drop_last();
        assert(forall|j: int| 0 <= j < pre.len() ==> pre[j] == ns[j]);
        lemma_mods_props(pre, c);
        let m = ns.last();
        assert(wf_mod(m));
        let seg = mod_seg(m, c);
        let head = concat_morphs(root_of(m)).push(c);
        assert(good_token(concat_morphs(root_of(m))));
        assert forall|k: int| 0 <= k < head.len() implies !is_ws(head[k]) by {
            if k < head.len() - 1 {
                assert(head[k] == concat_morphs(root_of(m))[k]);
            }
        }
        assert forall|j: int| 0 <= j < seg.len() implies good_token(#[trigger] seg[j]) && (
        ends_in(seg[j], 'i') || ends_in(seg[j], c)) by {
            match m {
                NodeV::Word { word, own, .. } => {
                    match own {
                        Some(p) => {
                            if j == 0 {
                                let ptok = concat_morphs(root_of(*p)).push('i');
                                assert(seg[j] == ptok);
                                assert(good_token(concat_morphs(root_of(*p))));
                                assert(!is_ws('i'));
                                assert forall|k: int| 0 <= k < ptok.len() implies !is_ws(
                                    ptok[k],
                                ) by {
                                    if k < ptok.len() - 1 {
                                        assert(ptok[k] == concat_morphs(root_of(*p))[k]);
                                    }
                                }
                            } else {
                                assert(seg[j] == head);
                            }
                        },
                        None => {
                            assert(seg[j] == head);
                        },
                    }
                },
                _ => {},
            }
        }
        assert(forall|j: int|
            0 <= j < mods_toks(pre, c).len() ==> mods_toks(ns, c)[j] == mods_toks(pre, c)[j]);
        assert(forall|j: int|
            0 <= j < seg.len() ==> mods_toks(ns, c)[mods_toks(pre, c).len() + j] == seg[j]);
        if forall|j: int| 0 <= j < ns.len() ==> plain_phrase(#[trigger] ns[j]) {
            assert(plain_phrase(m));
            assert(seg =~= seq![head]);
        }
    }
}

/// A modifier-list prefix renders to a prefix of the full token list.
pub proof fn lemma_mods_prefix(ns: Seq<NodeV>, c: char, i: int)
    requires
        0 <= i <= ns.len(),
    ensures
        mods_toks(ns.take(i), c).len() <= mods_toks(ns, c).len(),
        forall|j: int|
            0 <= j < mods_toks(ns.take(i), c).len() ==> #[trigger] mods_toks(ns.take(i), c)[j]
                == mods_toks(ns, c)[j],
    decreases ns,
{
    if ns.len() > 0 {
        let pre = ns.drop_last();
        if i <= pre.len() {
            assert(ns.take(i) =~= pre.take(i));
            lemma_mods_prefix(pre, c, i);
            assert(forall|j: int|
                0 <= j < mods_toks(pre, c).len() ==> mods_toks(ns, c)[j] == mods_toks(
                    pre,
                    c,
                )[j]);
        } else {
            assert(ns.take(i) =~= ns);
        }
    } else {
        assert(ns.take(i) =~= ns);
    }
}

/// `lemma_mod_piece`, for a modifier without a possessor.
#[verifier::rlimit(100)]
pub proof fn lemma_mod_piece_noown(m: NodeV, c: char)
    requires
        wf_mod(m),
        m matches NodeV::Word { own: None, .. },
        c == 'a' || c == 'e',
    ensures
        ({
            let piece = strip_o(fmt_node(m)) + (if c == 'a' {
                seq!['a', ' ']
            } else {
                seq!['e', ' ']
            });
            split_ws(piece) == mod_seg(m, c) && piece.len() > 0 && piece.last() == ' '
        }),
{
    let piece = strip_o(fmt_node(m)) + (if c == 'a' {
        seq!['a', ' ']
    } else {
        seq!['e', ' ']
    });
    assert(!is_ws('a'));
    assert(!is_ws('e'));
    assert(!is_ws('i'));
    match m {
        NodeV::Word { word, own, adj } => {
            assert(adj =~= Seq::<NodeV>::empty());
            assert(fmt_adj_pieces(adj) == Seq::<Seq<char>>::empty());
            let wc = concat_morphs(word);
            let head = wc.push(c);
            assert(good_token(wc));
            assert forall|k: int| 0 <= k < head.len() implies !is_ws(head[k]) by {
                if k < head.len() - 1 {
                    assert(head[k] == wc[k]);
                }
            }
            assert(good_token(head));
            match own {
                None => {
                    assert(fmt_node(m) =~= wc.push('o'));
                    assert(ends_in(fmt_node(m), 'o'));
                    assert(strip_o(fmt_node(m)) =~= wc);
                    assert(piece =~= head + seq![' ']);
                    lemma_split_token_sp(head);
                    assert(mod_seg(m, c) =~= seq![head]);
                    assert(piece.last() == ' ');
                },
                Some(p) => {
                    assert(false);
                },
            }
        },
        _ => {
            assert(false);
        },
    }
}

/// `lemma_mod_piece`, for a modifier with a possessor.
#[verifier::rlimit(100)]
pub proof fn lemma_mod_piece_own(m: NodeV, c: char)
    requires
        wf_mod(m),
        m matches NodeV::Word { own: Some(_), .. },
        c == 'a' || c == 'e',
    ensures
        ({
            let piece = strip_o(fmt_node(m)) + (if c == 'a' {
                seq!['a', ' ']
            } else {
                seq!['e', ' ']
            });
            split_ws(piece) == mod_seg(m, c) && piece.len() > 0 && piece.last() == ' '
        }),
{
    let piece = strip_o(fmt_node(m)) + (if c == 'a' {
        seq!['a', ' ']
    } else {
        seq!['e', ' ']
    });
    assert(!is_ws('a'));
    assert(!is_ws('e'));
    assert(!is_ws('i'));
    match m {
        NodeV::Word { word, own, adj } => {
            assert(adj =~= Seq::<NodeV>::empty());
            assert(fmt_adj_pieces(adj) == Seq::<Seq<char>>::empty());
            let wc = concat_morphs(word);
            let head = wc.push(c);
            assert(good_token(wc));
            assert forall|k: int| 0 <= k < head.len() implies !is_ws(head[k]) by {
                if k < head.len() - 1 {
                    assert(head[k] == wc[k]);
                }
            }
            assert(good_token(head));
            match own {
                None => {
                    assert(false);
                },
                Some(p) => {
                    lemma_fmt_plain(*p);
                    let pc = concat_morphs(root_of(*p));
                    let ptok = pc.push('i');
                    assert(good_token(pc));
                    assert forall|k: int| 0 <= k < ptok.len() implies !is_ws(ptok[k]) by {
                        if k < ptok.len() - 1 {
                            assert(ptok[k] == pc[k]);
                        }
                    }
                    assert(good_token(ptok));
                    assert(strip_o(fmt_node(*p)) =~= pc);
                    assert(fmt_node(m) =~= (pc + seq!['i', ' ']) + wc.push('o'));
                    assert(fmt_node(m).last() == 'o') by {
                        assert(fmt_node(m)[fmt_node(m).len() - 1] == wc.push('o')[wc.len()
                            as int]);
                    }
                    assert(strip_o(fmt_node(m)) =~= (pc + seq!['i', ' ']) + wc);
                    assert(piece =~= (ptok + seq![' ']) + (head + seq![' ']));
                    lemma_split_app(ptok + seq![' '], head + seq![' ']);
                    lemma_split_token_sp(ptok);
                    lemma_split_token_sp(head);
                    assert(split_ws(piece) =~= mod_seg(m, c));
                    assert(piece.last() == ' ');
                },
            }
        },
        _ => {
            assert(false);
        },
    }
}

/// One rendered modifier piece splits to the modifier's tokens and ends
/// with a space.
#[verifier::rlimit(100)]
pub proof fn lemma_mod_piece(m: NodeV, c: char)
    requires
        wf_mod(m),
        c == 'a' || c == 'e',
    ensures
        ({
            let piece = strip_o(fmt_node(m)) + (if c == 'a' {
                seq!['a', ' ']
            } else {
                seq!['e', ' ']
            });
            split_ws(piece) == mod_seg(m, c) && piece.len() > 0 && piece.last() == ' '
        }),
{
    match m {
        NodeV::Word { word, own, adj } => {
            match own {
                None => {
                    lemma_mod_piece_noown(m, c);
                },
                Some(p) => {
                    lemma_mod_piece_own(m, c);
                },
            }
        },
        _ => {
            assert(false);
        },
    }
}

/// The concatenated modifier pieces split to the rendered modifier tokens,
/// and end with a space when there are any.
#[verifier::rlimit(100)]
pub proof fn lemma_mods_fmt(ns: Seq<NodeV>, c: char)
    requires
        forall|j: int| 0 <= j < ns.len() ==> wf_mod(#[trigger] ns[j]),
        c == 'a' || c == 'e',
    ensures
        ({
            let joined = if c == 'a' {
                concat_morphs(fmt_adj_pieces(ns))
            } else {
                concat_morphs(fmt_adv_pieces(ns))
            };
            &&& split_ws(joined) == mods_toks(ns, c)
            &&& (ns.len() > 0 ==> joined.len() > 0 && joined.last() == ' ')
            &&& (ns.len() == 0 ==> joined == Seq::<char>::empty())
        }),
    decreases ns,
{
    let joined = if c == 'a' {
        concat_morphs(fmt_adj_pieces(ns))
    } else {
        concat_morphs(fmt_adv_pieces(ns))
    };
    if ns.len() == 0 {
        assert(split_ws(joined) =~= mods_toks(ns, c));
    } else {
        let pre = ns.drop_last();
        assert(forall|j: int| 0 <= j < pre.len() ==> pre[j] == ns[j]);
        lemma_mods_fmt(pre, c);
        let m = ns.last();
        lemma_mod_piece(m, c);
        let piece = strip_o(fmt_node(m)) + (if c == 'a' {
            seq!['a', ' ']
        } else {
            seq!['e', ' ']
        });
        let jpre = if c == 'a' {
            concat_morphs(fmt_adj_pieces(pre))
        } else {
            concat_morphs(fmt_adv_pieces(pre))
        };
        if c == 'a' {
            assert(fmt_adj_pieces(ns) == fmt_adj_pieces(pre).push(piece)) by {
                assert(ns.drop_last() == pre);
            }
            crate::noun::lemma_concat_snoc(fmt_adj_pieces(pre), piece);
        } else {
            assert(fmt_adv_pieces(ns) == fmt_adv_pieces(pre).push(piece)) by {
                assert(ns.drop_last() == pre);
            }
            crate::noun::lemma_concat_snoc(fmt_adv_pieces(pre), piece);
        }
        assert(joined == jpre + piece);
        lemma_mods_toks_snoc(pre, m, c);
        assert(mods_toks(ns, c) == mods_toks(pre, c) + mod_seg(m, c)) by {
            assert(ns.drop_last() == pre);
        }
        if pre.len() == 0 {
            assert(jpre =~= Seq::<char>::empty());
            assert(joined =~= piece);
            assert(split_ws(joined) =~= mods_toks(ns, c));
            assert(joined.last() == ' ');
        } else {
            lemma_split_app(jpre, piece);
            assert(split_ws(joined) =~= mods_toks(ns, c));
            assert(joined.last() == ' ');
        }
    }
}

/// Walking the phrase scan across rendered modifier tokens collects exactly
/// those modifiers: a possessor token joins the pending run, and the
/// closing adjective-suffixed token commits the modifier from it.
#[verifier::rlimit(100)]
pub proof fn lemma_mods_walk(toks: Seq<Seq<char>>, start: int, adjs: Seq<NodeV>, i: int)
    requires
        0 <= start,
        0 <= i <= adjs.len(),
        forall|j: int| 0 <= j < adjs.len() ==> wf_mod(#[trigger] adjs[j]),
        start + mods_toks(adjs, 'a').len() < toks.len(),
        forall|j: int|
            0 <= j < mods_toks(adjs, 'a').len() ==> toks[start + j] == #[trigger] mods_toks(
                adjs,
                'a',
            )[j],
        ends_in(toks[start + mods_toks(adjs, 'a').len()], 'o'),
    ensures
        adj_nodes(toks, start, start + mods_toks(adjs.take(i), 'a').len()) == Some(
            adjs.take(i),
        ),
        w_temp(toks, start, start + mods_toks(adjs.take(i), 'a').len()) == Seq::<
            Seq<char>,
        >::empty(),
    decreases i,
{
    lemma_mods_prefix(adjs, 'a', i);
    if i == 0 {
        assert(adjs.take(0) =~= Seq::<NodeV>::empty());
        assert(mods_toks(adjs.take(0), 'a') =~= Seq::<Seq<char>>::empty());
    } else {
        lemma_mods_walk(toks, start, adjs, i - 1);
        lemma_mods_prefix(adjs, 'a', i - 1);
        let m = adjs[i - 1];
        assert(wf_mod(m));
        lemma_mod_parse(m);
        let p0 = start + mods_toks(adjs.take(i - 1), 'a').len();
        let seg = mod_seg(m, 'a');
        assert(adjs.take(i).drop_last() =~= adjs.take(i - 1));
        assert(adjs.take(i).last() == m);
        assert(mods_toks(adjs.take(i), 'a') == mods_toks(adjs.take(i - 1), 'a') + seg);
        let total = mods_toks(adjs.take(i), 'a').len() as int;
        assert forall|j: int| 0 <= j < seg.len() implies toks[p0 + j] == #[trigger] seg[j] by {
            assert(mods_toks(adjs.take(i), 'a')[p0 - start + j] == seg[j]);
            assert(mods_toks(adjs.take(i), 'a')[p0 - start + j] == mods_toks(adjs, 'a')[p0
                - start + j]);
        }
        let hpos = start + mods_toks(adjs, 'a').len();
        assert(ends_in(toks[hpos], 'o'));
        assert(start + total <= hpos);
        let wc = concat_morphs(root_of(m));
        let head_a = wc.push('a');
        match m {
            NodeV::Word { word, own, adj } => {
                match own {
                    None => {
                        assert(seg =~= seq![head_a]);
                        assert(seg[0] == head_a);
                        assert(toks[p0] == head_a);
                        assert(ends_in(head_a, 'a'));
                        assert(!ends_in(head_a, 'o'));
                        assert(exists|j: int|
                            p0 < j < toks.len() && ends_in(#[trigger] toks[j], 'o')) by {
                            assert(p0 < hpos < toks.len() && ends_in(toks[hpos], 'o'));
                        }
                        let arg = w_temp(toks, start, p0).push(head_a.drop_last().push('o'));
                        assert(head_a.drop_last() =~= wc);
                        assert(arg =~= word_toks_x(m));
                        assert(adj_nodes(toks, start, p0 + 1) == Some(
                            adjs.take(i - 1).push(m),
                        ));
                        assert(adjs.take(i - 1).push(m) =~= adjs.take(i));
                        assert(w_temp(toks, start, p0 + 1) =~= Seq::<Seq<char>>::empty());
                    },
                    Some(p) => {
                        let ptok = concat_morphs(root_of(*p)).push('i');
                        assert(seg =~= seq![ptok, head_a]);
                        assert(seg[0] == ptok);
                        assert(seg[1] == head_a);
                        assert(toks[p0] == ptok);
                        assert(toks[p0 + 1] == head_a);
                        assert(ends_in(ptok, 'i'));
                        assert(!ends_in(ptok, 'o') && !ends_in(ptok, 'a'));
                        assert(adj_nodes(toks, start, p0 + 1) == Some(adjs.take(i - 1)));
                        assert(w_temp(toks, start, p0 + 1) =~= Seq::<Seq<char>>::empty().push(
                            ptok,
                        ));
                        assert(ends_in(head_a, 'a'));
                        assert(!ends_in(head_a, 'o'));
                        assert(exists|j: int|
                            p0 + 1 < j < toks.len() && ends_in(#[trigger] toks[j], 'o')) by {
                            assert(p0 + 1 < hpos < toks.len() && ends_in(toks[hpos], 'o'));
                        }
                        let arg = w_temp(toks, start, p0 + 1).push(
                            head_a.drop_last().push('o'),
                        );
                        assert(head_a.drop_last() =~= wc);
                        assert(arg =~= word_toks_x(m));
                        assert(adj_nodes(toks, start, p0 + 2) == Some(
                            adjs.take(i - 1).push(m),
                        ));
                        assert(adjs.take(i - 1).push(m) =~= adjs.take(i));
                        assert(w_temp(toks, start, p0 + 2) =~= Seq::<Seq<char>>::empty());
                    },
                }
            },
            _ => {
                assert(false);
            },
        }
    }
}

/// `lemma_word_x`, for a phrase without a possessor.
#[verifier::rlimit(100)]
pub proof fn lemma_word_x_noown(n: NodeV)
    requires
        wf_word_x(n),
        n matches NodeV::Word { own: None, .. },
    ensures
        split_ws(fmt_node(n)) == word_toks_x(n),
        split_ws(word_prefix_str(n)) == word_toks_x(n).drop_last(),
        word_prefix_str(n).len() > 0 ==> word_prefix_str(n).last() == ' ',
        fmt_node(n) == word_prefix_str(n) + concat_morphs(root_of(n)).push('o'),
        parse_toks(word_toks_x(n)) == Some(n),
        word_toks_x(n).len() >= 1,
        word_toks_x(n).last() == concat_morphs(root_of(n)).push('o'),
        forall|j: int|
            0 <= j < word_toks_x(n).len() ==> good_token(#[trigger] word_toks_x(n)[j])
                && !ends_in(word_toks_x(n)[j], 'u') && !ends_in(word_toks_x(n)[j], 'e'),
        forall|j: int|
            0 <= j < word_toks_x(n).len() - 1 ==> !ends_in(#[trigger] word_toks_x(n)[j], 'o'),
{
    match n {
        NodeV::Word { word, own, adj } => {
            let head = concat_morphs(word).push('o');
            assert(!is_ws('o'));
            assert(!is_ws('i'));
            assert(!is_ws('a'));
            assert(good_token(concat_morphs(word)));
            assert forall|k: int| 0 <= k < head.len() implies !is_ws(head[k]) by {
                if k < head.len() - 1 {
                    assert(head[k] == concat_morphs(word)[k]);
                }
            }
            assert(good_token(head));
            lemma_mods_props(adj, 'a');
            lemma_mods_fmt(adj, 'a');
            let jm = concat_morphs(fmt_adj_pieces(adj));
            let mtoks = mods_toks(adj, 'a');
            match own {
                None => {
                    let toks = word_toks_x(n);
                    assert(toks =~= mtoks + seq![head]);
                    assert(word_prefix_str(n) =~= jm);
                    assert(fmt_node(n) =~= jm + head);
                    lemma_split_app(jm, head);
                    lemma_split_single(head);
                    assert(split_ws(fmt_node(n)) =~= toks);
                    assert(toks.drop_last() =~= mtoks);
                    assert(toks.last() == head);
                    // with no possessor every modifier is a bare phrase
                    assert(forall|j: int| 0 <= j < adj.len() ==> plain_phrase(#[trigger] adj[j]));
                    assert forall|j: int| 0 <= j < toks.len() implies good_token(
                        #[trigger] toks[j],
                    ) && !ends_in(toks[j], 'u') && !ends_in(toks[j], 'e') by {
                        if j < mtoks.len() {
                            assert(toks[j] == mtoks[j]);
                            assert(ends_in(mtoks[j], 'a'));
                        } else {
                            assert(toks[j] == head);
                        }
                    }
                    assert forall|j: int| 0 <= j < toks.len() - 1 implies !ends_in(
                        #[trigger] toks[j],
                        'o',
                    ) by {
                        assert(toks[j] == mtoks[j]);
                        assert(ends_in(mtoks[j], 'a'));
                    }
                    if adj.len() == 0 {
                        assert(mtoks =~= Seq::<Seq<char>>::empty());
                        assert(toks =~= seq![head]);
                        assert(head.drop_last() =~= concat_morphs(word));
                        assert(adj =~= Seq::<NodeV>::empty());
                        assert(parse_toks(toks) == Some(
                            NodeV::Word { word, own: None, adj: Seq::empty() },
                        ));
                        assert(own == None::<Box<NodeV>>);
                    } else {
                        assert(toks.len() >= 2);
                        assert forall|j: int| 0 <= j < toks.len() implies !ends_in(
                            #[trigger] toks[j],
                            'i',
                        ) by {
                            if j < mtoks.len() {
                                assert(toks[j] == mtoks[j]);
                                assert(ends_in(mtoks[j], 'a'));
                            } else {
                                assert(toks[j] == head);
                            }
                        }
                        lemma_first_with_at(toks, 0, 'u', toks.len() as int);
                        lemma_first_with_at(toks, 0, 'i', toks.len() as int);
                        lemma_first_with_at(toks, 0, 'o', mtoks.len() as int);
                        assert(forall|j: int|
                            0 <= j < mtoks.len() ==> toks[0 + j] == #[trigger] mtoks[j]);
                        lemma_mods_walk(toks, 0, adj, adj.len() as int);
                        assert(adj.take(adj.len() as int) =~= adj);
                        assert(mods_toks(adj.take(adj.len() as int), 'a') == mtoks) by {
                            assert(adj.take(adj.len() as int) =~= adj);
                        }
                        assert(adj_nodes(toks, 0, mtoks.len() as int) == Some(adj));
                        assert(head.drop_last() =~= concat_morphs(word));
                        assert(word_scan(toks, 0, None::<NodeV>) == Some(
                            NodeV::Word { word, own: None, adj },
                        ));
                        assert(own == None::<Box<NodeV>>);
                        assert(word_result(toks) == Some(n));
                        assert(parse_toks(toks) == word_result(toks));
                    }
                },
                Some(p) => {
                    assert(false);
                },
            }
        },
        _ => {
            assert(false);
        },
    }
}

/// `lemma_word_x`, for a phrase with a possessor.
#[verifier::rlimit(100)]
pub proof fn lemma_word_x_own(n: NodeV)
    requires
        wf_word_x(n),
        n matches NodeV::Word { own: Some(_), .. },
    ensures
        split_ws(fmt_node(n)) == word_toks_x(n),
        split_ws(word_prefix_str(n)) == word_toks_x(n).drop_last(),
        word_prefix_str(n).len() > 0 ==> word_prefix_str(n).last() == ' ',
        fmt_node(n) == word_prefix_str(n) + concat_morphs(root_of(n)).push('o'),
        parse_toks(word_toks_x(n)) == Some(n),
        word_toks_x(n).len() >= 1,
        word_toks_x(n).last() == concat_morphs(root_of(n)).push('o'),
        forall|j: int|
            0 <= j < word_toks_x(n).len() ==> good_token(#[trigger] word_toks_x(n)[j])
                && !ends_in(word_toks_x(n)[j], 'u') && !ends_in(word_toks_x(n)[j], 'e'),
        forall|j: int|
            0 <= j < word_toks_x(n).len() - 1 ==> !ends_in(#[trigger] word_toks_x(n)[j], 'o'),
{
    match n {
        NodeV::Word { word, own, adj } => {
            let head = concat_morphs(word).push('o');
            assert(!is_ws('o'));
            assert(!is_ws('i'));
            assert(!is_ws('a'));
            assert(good_token(concat_morphs(word)));
            assert forall|k: int| 0 <= k < head.len() implies !is_ws(head[k]) by {
                if k < head.len() - 1 {
                    assert(head[k] == concat_morphs(word)[k]);
                }
            }
            assert(good_token(head));
            lemma_mods_props(adj, 'a');
            lemma_mods_fmt(adj, 'a');
            let jm = concat_morphs(fmt_adj_pieces(adj));
            let mtoks = mods_toks(adj, 'a');
            match own {
                None => {
                    assert(false);
                },
                Some(p) => {
                    let pw = root_of(*p);
                    let padj = word_adj(*p);
                    match *p {
                        NodeV::Word { word: pw2, own: po, adj: pa } => {
                            assert(po == None::<Box<NodeV>>);
                        },
                        _ => {
                            assert(false);
                        },
                    }
                    assert(*p == NodeV::Word { word: pw, own: None, adj: padj });
                    lemma_mod_toks_props(padj, 'a');
                    lemma_joined_fmt(padj, 'a');
                    let jp = concat_morphs(fmt_adj_pieces(padj));
                    let ptok = concat_morphs(pw).push('i');
                    assert(good_token(concat_morphs(pw)));
                    assert forall|k: int| 0 <= k < ptok.len() implies !is_ws(ptok[k]) by {
                        if k < ptok.len() - 1 {
                            assert(ptok[k] == concat_morphs(pw)[k]);
                        }
                    }
                    assert(good_token(ptok));
                    let phead = concat_morphs(pw).push('o');
                    assert(fmt_node(*p) =~= jp + phead);
                    assert(fmt_node(*p).last() == 'o') by {
                        assert(fmt_node(*p)[fmt_node(*p).len() - 1] == phead[phead.len() - 1]);
                    }
                    assert(ends_in(fmt_node(*p), 'o'));
                    assert(strip_o(fmt_node(*p)) =~= jp + concat_morphs(pw));
                    assert(word_prefix_str(n) =~= jp + ((ptok + seq![' ']) + jm));
                    assert(fmt_node(n) =~= jp + ((ptok + seq![' ']) + (jm + head)));
                    lemma_split_app(jp, (ptok + seq![' ']) + (jm + head));
                    lemma_split_app(jp, (ptok + seq![' ']) + jm);
                    lemma_split_app(ptok + seq![' '], jm + head);
                    lemma_split_app(ptok + seq![' '], jm);
                    lemma_split_token_sp(ptok);
                    lemma_split_app(jm, head);
                    lemma_split_single(head);
                    let toks = word_toks_x(n);
                    assert(toks =~= (mod_toks(padj, 'a').push(ptok)) + mtoks + seq![head]);
                    assert(split_ws(fmt_node(n)) =~= toks);
                    assert(split_ws(word_prefix_str(n)) =~= toks.drop_last());
                    assert(word_prefix_str(n).len() > 0);
                    if jm.len() == 0 {
                        assert(word_prefix_str(n).last() == ' ');
                    } else {
                        assert(word_prefix_str(n).last() == jm.last());
                    }
                    let kp = padj.len() as int;
                    let hpos = toks.len() - 1;
                    assert(toks[kp] == ptok);
                    assert(toks[hpos] == head);
                    assert(toks.last() == head);
                    assert(forall|j: int| 0 <= j < kp ==> toks[j] == mod_toks(padj, 'a')[j]);
                    assert(forall|j: int|
                        0 <= j < mtoks.len() ==> toks[kp + 1 + j] == #[trigger] mtoks[j]);
                    assert forall|j: int| 0 <= j < toks.len() implies good_token(
                        #[trigger] toks[j],
                    ) && !ends_in(toks[j], 'u') && !ends_in(toks[j], 'e') by {
                        if j < kp {
                            assert(toks[j] == mod_toks(padj, 'a')[j]);
                            assert(ends_in(toks[j], 'a'));
                        } else if j == kp {
                            assert(toks[j] == ptok);
                        } else if j < hpos {
                            assert(toks[j] == mtoks[j - kp - 1]);
                            assert(ends_in(toks[j], 'i') || ends_in(toks[j], 'a'));
                        } else {
                            assert(toks[j] == head);
                        }
                    }
                    assert forall|j: int| 0 <= j < hpos implies !ends_in(
                        #[trigger] toks[j],
                        'o',
                    ) by {
                        if j < kp {
                            assert(ends_in(toks[j], 'a'));
                        } else if j == kp {
                            assert(ends_in(toks[j], 'i'));
                        } else {
                            assert(toks[j] == mtoks[j - kp - 1]);
                            assert(ends_in(toks[j], 'i') || ends_in(toks[j], 'a'));
                        }
                    }
                    assert forall|j: int| 0 <= j < kp implies !ends_in(
                        #[trigger] toks[j],
                        'i',
                    ) by {
                        assert(ends_in(toks[j], 'a'));
                    }
                    lemma_first_with_at(toks, 0, 'u', toks.len() as int);
                    lemma_first_with_at(toks, 0, 'o', hpos);
                    assert(ends_in(ptok, 'i'));
                    lemma_first_with_at(toks, 0, 'i', kp);
                    assert(!(exists|m: int| 0 <= m < kp && ends_in(#[trigger] toks[m], 'o')));
                    let st = ptok.drop_last();
                    assert(st =~= concat_morphs(pw));
                    assert(st.len() > 0);
                    let arg = own_arg(toks, kp);
                    assert(arg == toks.take(kp).push(st.push('o')));
                    assert(toks.take(kp) =~= mod_toks(padj, 'a'));
                    assert(st.push('o') =~= phead);
                    lemma_word_noown(pw, padj);
                    assert(arg =~= mod_toks(padj, 'a') + seq![phead]);
                    assert(parse_toks(arg) == Some(*p));
                    lemma_first_with_at(toks, kp + 1, 'o', hpos);
                    assert(forall|j: int|
                        0 <= j < mtoks.len() ==> toks[(kp + 1) + j] == #[trigger] mtoks[j]);
                    lemma_mods_walk(toks, kp + 1, adj, adj.len() as int);
                    assert(adj.take(adj.len() as int) =~= adj);
                    assert(mods_toks(adj.take(adj.len() as int), 'a') == mtoks) by {
                        assert(adj.take(adj.len() as int) =~= adj);
                    }
                    assert(adj_nodes(toks, kp + 1, kp + 1 + mtoks.len()) == Some(adj));
                    assert(kp + 1 + mtoks.len() == hpos);
                    assert(head.drop_last() =~= concat_morphs(word));
                    assert(word_scan(toks, kp + 1, Some(*p)) == Some(
                        NodeV::Word { word, own: Some(Box::new(*p)), adj },
                    ));
                    assert(Box::new(*p) == p);
                    assert(word_result(toks) == Some(n));
                    assert(toks.len() >= 2);
                    assert(parse_toks(toks) == word_result(toks));
                },
            }
        },
        _ => {
            assert(false);
        },
    }
}

/// What a phrase of the parser's shape renders to and how it parses back:
/// its text splits to its rendered tokens, the text before the head splits
/// to all but the head token, those tokens parse to the phrase itself, and
/// the tokens carry only the adjective, possessive and final object
/// suffixes.
#[verifier::rlimit(100)]
pub proof fn lemma_word_x(n: NodeV)
    requires
        wf_word_x(n),
    ensures
        split_ws(fmt_node(n)) == word_toks_x(n),
        split_ws(word_prefix_str(n)) == word_toks_x(n).drop_last(),
        word_prefix_str(n).len() > 0 ==> word_prefix_str(n).last() == ' ',
        fmt_node(n) == word_prefix_str(n) + concat_morphs(root_of(n)).push('o'),
        parse_toks(word_toks_x(n)) == Some(n),
        word_toks_x(n).len() >= 1,
        word_toks_x(n).last() == concat_morphs(root_of(n)).push('o'),
        forall|j: int|
            0 <= j < word_toks_x(n).len() ==> good_token(#[trigger] word_toks_x(n)[j])
                && !ends_in(word_toks_x(n)[j], 'u') && !ends_in(word_toks_x(n)[j], 'e'),
        forall|j: int|
            0 <= j < word_toks_x(n).len() - 1 ==> !ends_in(#[trigger] word_toks_x(n)[j], 'o'),
{
    match n {
        NodeV::Word { word, own, adj } => {
            match own {
                None => {
                    lemma_word_x_noown(n);
                },
                Some(p) => {
                    lemma_word_x_own(n);
                },
            }
        },
        _ => {
            assert(false);
        },
    }
}

/// The tokens one adverb renders to: its phrase tokens with the head
/// re-suffixed as an adverb.
pub open spec fn adv_seg(m: NodeV) -> Seq<Seq<char>> {
    word_toks_x(m).drop_last().push(concat_morphs(root_of(m)).push('e'))
}

/// The tokens an adverb list renders to, in order.
pub open spec fn advs_toks(ns: Seq<NodeV>) -> Seq<Seq<char>>
    decreases ns,
{
    if ns.len() == 0 {
        Seq::empty()
    } else {
        advs_toks(ns.drop_last()) + adv_seg(ns.last())
    }
}

/// An adverb-list prefix renders to a prefix of the full token list.
pub proof fn lemma_advs_prefix(ns: Seq<NodeV>, i: int)
    requires
        0 <= i <= ns.len(),
    ensures
        advs_toks(ns.take(i)).len() <= advs_toks(ns).len(),
        forall|j: int|
            0 <= j < advs_toks(ns.take(i)).len() ==> #[trigger] advs_toks(ns.take(i))[j]
                == advs_toks(ns)[j],
    decreases ns,
{
    if ns.len() > 0 {
        let pre = ns.drop_last();
        if i <= pre.len() {
            assert(ns.take(i) =~= pre.take(i));
            lemma_advs_prefix(pre, i);
            assert(forall|j: int|
                0 <= j < advs_toks(pre).len() ==> advs_toks(ns)[j] == advs_toks(pre)[j]);
        } else {
            assert(ns.take(i) =~= ns);
        }
    } else {
        assert(ns.take(i) =~= ns);
    }
}

/// Rendered adverb tokens are well formed and carry neither the verb nor
/// the object suffix.
#[verifier::rlimit(100)]
pub proof fn lemma_advs_props(ns: Seq<NodeV>)
    requires
        forall|j: int| 0 <= j < ns.len() ==> wf_word_x(#[trigger] ns[j]),
    ensures
        forall|j: int|
            0 <= j < advs_toks(ns).len() ==> good_token(#[trigger] advs_toks(ns)[j])
                && !ends_in(advs_toks(ns)[j], 'u') && !ends_in(advs_toks(ns)[j], 'o'),
    decreases ns,
{
    if ns.len() > 0 {
        let pre = ns.drop_last();
        assert(forall|j: int| 0 <= j < pre.len() ==> pre[j] == ns[j]);
        lemma_advs_props(pre);
        let m = ns.last();
        lemma_word_x(m);
        let seg = adv_seg(m);
        let wt = word_toks_x(m);
        let head_e = concat_morphs(root_of(m)).push('e');
        assert(!is_ws('e'));
        assert(good_token(concat_morphs(root_of(m))));
        assert forall|k: int| 0 <= k < head_e.len() implies !is_ws(head_e[k]) by {
            if k < head_e.len() - 1 {
                assert(head_e[k] == concat_morphs(root_of(m))[k]);
            }
        }
        assert forall|j: int| 0 <= j < seg.len() implies good_token(#[trigger] seg[j])
            && !ends_in(seg[j], 'u') && !ends_in(seg[j], 'o') by {
            if j < seg.len() - 1 {
                assert(seg[j] == wt[j]);
            } else {
                assert(seg[j] == head_e);
            }
        }
        assert(forall|j: int|
            0 <= j < advs_toks(pre).len() ==> advs_toks(ns)[j] == advs_toks(pre)[j]);
        assert(forall|j: int|
            0 <= j < seg.len() ==> advs_toks(ns)[advs_toks(pre).len() + j] == seg[j]);
    }
}

/// One rendered adverb piece splits to the adverb's tokens and ends with a
/// space.
#[verifier::rlimit(100)]
pub proof fn lemma_adv_piece(m: NodeV)
    requires
        wf_word_x(m),
    ensures
        ({
            let piece = strip_o(fmt_node(m)) + seq!['e', ' '];
            split_ws(piece) == adv_seg(m) && piece.len() > 0 && piece.last() == ' '
        }),
{
    lemma_word_x(m);
    let wc = concat_morphs(root_of(m));
    let head_e = wc.push('e');
    assert(!is_ws('e'));
    assert(good_token(wc));
    assert forall|k: int| 0 <= k < head_e.len() implies !is_ws(head_e[k]) by {
        if k < head_e.len() - 1 {
            assert(head_e[k] == wc[k]);
        }
    }
    assert(good_token(head_e));
    let pfx = word_prefix_str(m);
    assert(fmt_node(m) == pfx + wc.push('o'));
    assert(fmt_node(m).last() == 'o') by {
        assert(fmt_node(m)[fmt_node(m).len() - 1] == wc.push('o')[wc.len() as int]);
    }
    assert(strip_o(fmt_node(m)) =~= pfx + wc);
    let piece = strip_o(fmt_node(m)) + seq!['e', ' '];
    assert(piece =~= pfx + (head_e + seq![' ']));
    lemma_split_app(pfx, head_e + seq![' ']);
    lemma_split_token_sp(head_e);
    assert(word_toks_x(m).last() == wc.push('o'));
    assert(adv_seg(m) =~= word_toks_x(m).drop_last() + seq![head_e]);
    assert(split_ws(piece) =~= adv_seg(m));
    assert(piece.last() == ' ');
}

/// The concatenated adverb pieces split to the rendered adverb tokens, and
/// end with a space when there are any.
#[verifier::rlimit(100)]
pub proof fn lemma_advs_fmt(ns: Seq<NodeV>)
    requires
        forall|j: int| 0 <= j < ns.len() ==> wf_word_x(#[trigger] ns[j]),
    ensures
        ({
            let joined = concat_morphs(fmt_adv_pieces(ns));
            &&& split_ws(joined) == advs_toks(ns)
            &&& (ns.len() > 0 ==> joined.len() > 0 && joined.last() == ' ')
            &&& (ns.len() == 0 ==> joined == Seq::<char>::empty())
        }),
    decreases ns,
{
    let joined = concat_morphs(fmt_adv_pieces(ns));
    if ns.len() == 0 {
        assert(split_ws(joined) =~= advs_toks(ns));
    } else {
        let pre = ns.drop_last();
        assert(forall|j: int| 0 <= j < pre.len() ==> pre[j] == ns[j]);
        lemma_advs_fmt(pre);
        let m = ns.last();
        lemma_adv_piece(m);
        let piece = strip_o(fmt_node(m)) + seq!['e', ' '];
        let jpre = concat_morphs(fmt_adv_pieces(pre));
        assert(fmt_adv_pieces(ns) == fmt_adv_pieces(pre).push(piece)) by {
            assert(ns.drop_last() == pre);
        }
        crate::noun::lemma_concat_snoc(fmt_adv_pieces(pre), piece);
        assert(joined == jpre + piece);
        assert(advs_toks(ns) == advs_toks(pre) + adv_seg(m)) by {
            assert(ns.drop_last() == pre);
        }
        if pre.len() == 0 {
            assert(jpre =~= Seq::<char>::empty());
            assert(joined =~= piece);
            assert(split_ws(joined) =~= advs_toks(ns));
            assert(joined.last() == ' ');
        } else {
            lemma_split_app(jpre, piece);
            assert(split_ws(joined) =~= advs_toks(ns));
            assert(joined.last() == ' ');
        }
    }
}

/// A run of bare tokens with the flag up joins the pending run and changes
/// nothing else.
pub proof fn lemma_plain_run(toks: Seq<Seq<char>>, a: int, b: int)
    requires
        0 <= a <= b <= toks.len(),
        v_flag(toks, a),
        forall|m: int|
            a <= m < b ==> !ends_in(#[trigger] toks[m], 'u') && !ends_in(toks[m], 'e')
                && !ends_in(toks[m], 'o'),
    ensures
        v_flag(toks, b),
        v_subj(toks, b) == v_subj(toks, a),
        v_temp(toks, b) == v_temp(toks, a) + toks.subrange(a, b),
        adv_nodes(toks, b) == adv_nodes(toks, a),
    decreases b - a,
{
    if a == b {
        assert(toks.subrange(a, b) =~= Seq::<Seq<char>>::empty());
        assert(v_temp(toks, a) + toks.subrange(a, a) =~= v_temp(toks, a));
    } else {
        lemma_plain_run(toks, a, b - 1);
        assert(toks.subrange(a, b - 1).push(toks[b - 1]) =~= toks.subrange(a, b));
        assert(v_temp(toks, b) =~= v_temp(toks, a) + toks.subrange(a, b));
    }
}

/// Walking the clause scan across rendered adverb tokens: each adverb's
/// leading tokens join the pending run (they only occur with the flag up),
/// and its adverb-suffixed head commits the adverb from that run; the
/// subject buffer and the flag stay as they were.
#[verifier::rlimit(100)]
pub proof fn lemma_advs_walk(toks: Seq<Seq<char>>, sc: int, advs: Seq<NodeV>, i: int)
    requires
        0 <= sc,
        0 <= i <= advs.len(),
        forall|j: int| 0 <= j < advs.len() ==> wf_word_x(#[trigger] advs[j]),
        sc + advs_toks(advs).len() < toks.len(),
        forall|j: int|
            0 <= j < advs_toks(advs).len() ==> toks[sc + j] == #[trigger] advs_toks(advs)[j],
        ends_in(toks[sc + advs_toks(advs).len()], 'u'),
        v_subj(toks, sc) == toks.take(sc),
        v_temp(toks, sc) == Seq::<Seq<char>>::empty(),
        adv_nodes(toks, sc) == Some(Seq::<NodeV>::empty()),
        v_flag(toks, sc) == (sc > 0),
        sc == 0 ==> forall|j: int| 0 <= j < advs.len() ==> plain_phrase(#[trigger] advs[j]),
    ensures
        adv_nodes(toks, sc + advs_toks(advs.take(i)).len()) == Some(advs.take(i)),
        v_temp(toks, sc + advs_toks(advs.take(i)).len()) == Seq::<Seq<char>>::empty(),
        v_subj(toks, sc + advs_toks(advs.take(i)).len()) == toks.take(sc),
        v_flag(toks, sc + advs_toks(advs.take(i)).len()) == (sc > 0),
    decreases i,
{
    lemma_advs_prefix(advs, i);
    if i == 0 {
        assert(advs.take(0) =~= Seq::<NodeV>::empty());
        assert(advs_toks(advs.take(0)) =~= Seq::<Seq<char>>::empty());
    } else {
        lemma_advs_walk(toks, sc, advs, i - 1);
        lemma_advs_prefix(advs, i - 1);
        let m = advs[i - 1];
        assert(wf_word_x(m));
        lemma_word_x(m);
        let p0 = sc + advs_toks(advs.take(i - 1)).len();
        let seg = adv_seg(m);
        let wt = word_toks_x(m);
        let ll = wt.len() as int;
        assert(seg.len() == ll);
        assert(advs.take(i).drop_last() =~= advs.take(i - 1));
        assert(advs.take(i).last() == m);
        assert(advs_toks(advs.take(i)) == advs_toks(advs.take(i - 1)) + seg);
        assert forall|j: int| 0 <= j < seg.len() implies toks[p0 + j] == #[trigger] seg[j] by {
            assert(advs_toks(advs.take(i))[p0 - sc + j] == seg[j]);
            assert(advs_toks(advs.take(i))[p0 - sc + j] == advs_toks(advs)[p0 - sc + j]);
        }
        let upos = sc + advs_toks(advs).len();
        assert(ends_in(toks[upos], 'u'));
        assert(p0 + seg.len() <= upos);
        let wc = concat_morphs(root_of(m));
        let head_e = wc.push('e');
        assert(seg[ll - 1] == head_e);
        assert(toks[p0 + ll - 1] == head_e);
        assert forall|j: int| 0 <= j < ll - 1 implies toks[p0 + j] == wt[j] && !ends_in(
            #[trigger] wt[j],
            'u',
        ) && !ends_in(wt[j], 'e') && !ends_in(wt[j], 'o') by {
            assert(seg[j] == wt[j]);
        }
        if sc > 0 {
            assert forall|mm: int| p0 <= mm < p0 + ll - 1 implies !ends_in(
                #[trigger] toks[mm],
                'u',
            ) && !ends_in(toks[mm], 'e') && !ends_in(toks[mm], 'o') by {
                assert(toks[mm] == wt[mm - p0]);
            }
            lemma_plain_run(toks, p0, p0 + ll - 1);
            assert(v_temp(toks, p0 + ll - 1) =~= toks.subrange(p0, p0 + ll - 1));
            assert forall|j: int| 0 <= j < ll - 1 implies #[trigger] v_temp(
                toks,
                p0 + ll - 1,
            )[j] == wt[j] by {
                assert(v_temp(toks, p0 + ll - 1)[j] == toks[p0 + j]);
            }
            assert(v_temp(toks, p0 + ll - 1) =~= wt.drop_last());
        } else {
            assert(plain_phrase(m));
            match m {
                NodeV::Word { word, own, adj } => {
                    assert(adj =~= Seq::<NodeV>::empty());
                    assert(mods_toks(adj, 'a') =~= Seq::<Seq<char>>::empty());
                    assert(wt =~= seq![wc.push('o')]);
                },
                _ => {},
            }
            assert(ll == 1);
            assert(v_temp(toks, p0 + ll - 1) =~= wt.drop_last());
        }
        let cpos = p0 + ll - 1;
        assert(ends_in(head_e, 'e'));
        assert(!ends_in(head_e, 'u'));
        assert(exists|j: int| cpos < j < toks.len() && ends_in(#[trigger] toks[j], 'u')) by {
            assert(cpos < upos < toks.len() && ends_in(toks[upos], 'u'));
        }
        let arg = v_temp(toks, cpos).push(head_e.drop_last().push('o'));
        assert(head_e.drop_last() =~= wc);
        assert(wt.last() == wc.push('o'));
        assert(arg =~= wt);
        assert(parse_toks(arg) == Some(m));
        assert(adv_nodes(toks, cpos + 1) == Some(advs.take(i - 1).push(m)));
        assert(advs.take(i - 1).push(m) =~= advs.take(i));
        assert(v_temp(toks, cpos + 1) =~= Seq::<Seq<char>>::empty());
        assert(v_subj(toks, cpos + 1) == v_subj(toks, cpos));
        assert(cpos + 1 == sc + advs_toks(advs.take(i)).len());
    }
}

/// Walking the clause scan across a subject's tokens: every one joins the
/// subject buffer, nothing is pending, and the flag rises exactly at the
/// subject's final object-suffixed token.
pub proof fn lemma_subj_walk(toks: Seq<Seq<char>>, sc: int, i: int)
    requires
        0 <= i <= sc <= toks.len(),
        forall|j: int|
            0 <= j < sc ==> !ends_in(#[trigger] toks[j], 'u') && !ends_in(toks[j], 'e'),
        forall|j: int| 0 <= j < sc - 1 ==> !ends_in(#[trigger] toks[j], 'o'),
        sc > 0 ==> ends_in(toks[sc - 1], 'o'),
    ensures
        v_subj(toks, i) == toks.take(i),
        v_temp(toks, i) == Seq::<Seq<char>>::empty(),
        v_flag(toks, i) == (sc > 0 && i == sc),
        adv_nodes(toks, i) == Some(Seq::<NodeV>::empty()),
    decreases i,
{
    if i == 0 {
        assert(toks.take(0) =~= Seq::<Seq<char>>::empty());
    } else {
        lemma_subj_walk(toks, sc, i - 1);
        let t = toks[i - 1];
        assert(toks.take(i - 1).push(t) =~= toks.take(i));
    }
}



/// Round-trip: the canonical surface text of any tree of the parser's
/// shape re-parses to a structurally equal tree.
#[verifier::rlimit(100)]
pub proof fn round_trip(n: NodeV)
    requires
        wf_parsed(n),
    ensures
        spec_parse(fmt_node(n)) == Some(n),
    decreases n,
{
    match n {
        NodeV::Word { .. } => {
            lemma_word_x(n);
        },
        NodeV::Verb { verb, adv, subj, obj } => {
            let vt = concat_morphs(verb).push('u');
            assert(!is_ws('u'));
            assert(good_token(concat_morphs(verb)));
            assert forall|m: int| 0 <= m < vt.len() implies !is_ws(vt[m]) by {
                if m < vt.len() - 1 {
                    assert(vt[m] == concat_morphs(verb)[m]);
                }
            }
            assert(good_token(vt));
            assert(ends_in(vt, 'u'));
            assert(vt.drop_last() =~= concat_morphs(verb));
            lemma_advs_props(adv);
            lemma_advs_fmt(adv);
            let ja = concat_morphs(fmt_adv_pieces(adv));
            round_trip(*obj);
            let of = fmt_node(*obj);
            let ot = split_ws(of);
            assert(parse_toks(ot) == Some(*obj));
            if ot.len() == 0 {
                assert(parse_toks(ot) is None);
            }
            assert(ot.len() >= 1);
            let stoks = match subj {
                Some(sb) => word_toks_x(*sb),
                None => Seq::<Seq<char>>::empty(),
            };
            match subj {
                Some(sb) => {
                    lemma_word_x(*sb);
                },
                None => {},
            }
            let sc = stoks.len() as int;
            let atoks = advs_toks(adv);
            let k = sc + atoks.len();
            let tailpart = ja + ((vt + seq![' ']) + of);
            lemma_split_app(vt + seq![' '], of);
            lemma_split_token_sp(vt);
            lemma_split_app(ja, (vt + seq![' ']) + of);
            assert(split_ws(tailpart) =~= atoks + (seq![vt] + ot));
            let toks = stoks + atoks + seq![vt] + ot;
            match subj {
                None => {
                    assert(stoks =~= Seq::<Seq<char>>::empty());
                    assert(fmt_node(n) =~= tailpart);
                    assert(split_ws(fmt_node(n)) =~= toks);
                },
                Some(sb) => {
                    let sf = fmt_node(*sb);
                    assert(fmt_node(n) =~= (sf + seq![' ']) + tailpart);
                    lemma_split_trailing_sp(sf);
                    assert((sf + seq![' ']).last() == ' ');
                    lemma_split_app(sf + seq![' '], tailpart);
                    assert(split_ws(sf + seq![' ']) == stoks);
                    assert(split_ws(fmt_node(n)) =~= toks);
                },
            }
            assert(toks.len() == k + 1 + ot.len());
            assert(toks[k] == vt);
            assert(forall|j: int| 0 <= j < sc ==> toks[j] == stoks[j]);
            assert(forall|j: int| 0 <= j < atoks.len() ==> toks[sc + j] == #[trigger] atoks[j]);
            assert forall|m: int| 0 <= m < k implies !ends_in(#[trigger] toks[m], 'u') by {
                if m < sc {
                    assert(toks[m] == stoks[m]);
                } else {
                    assert(toks[m] == atoks[m - sc]);
                }
            }
            lemma_first_with_at(toks, 0, 'u', k);
            assert forall|j: int| 0 <= j < sc implies !ends_in(#[trigger] toks[j], 'u')
                && !ends_in(toks[j], 'e') by {
                assert(toks[j] == stoks[j]);
            }
            assert forall|j: int| 0 <= j < sc - 1 implies !ends_in(#[trigger] toks[j], 'o') by {
                assert(toks[j] == stoks[j]);
            }
            if sc > 0 {
                assert(stoks[sc - 1] == stoks.last());
                assert(ends_in(toks[sc - 1], 'o'));
            }
            lemma_subj_walk(toks, sc, sc);
            match subj {
                None => {
                    assert(sc == 0);
                    assert(forall|j: int|
                        0 <= j < adv.len() ==> plain_phrase(#[trigger] adv[j]));
                },
                Some(sb) => {
                    assert(sc >= 1);
                },
            }
            lemma_advs_walk(toks, sc, adv, adv.len() as int);
            assert(adv.take(adv.len() as int) =~= adv);
            assert(advs_toks(adv.take(adv.len() as int)) == atoks) by {
                assert(adv.take(adv.len() as int) =~= adv);
            }
            assert(adv_nodes(toks, k) == Some(adv));
            assert(v_subj(toks, k) == toks.take(sc));
            assert(toks.take(sc) =~= stoks);
            assert(toks.skip(k + 1) =~= ot);
            match subj {
                None => {
                    assert(v_subj(toks, k).len() == 0);
                    assert(subj == None::<Box<NodeV>>);
                },
                Some(sb) => {
                    assert(v_subj(toks, k).len() > 0);
                    assert(parse_toks(v_subj(toks, k)) == Some(*sb));
                    assert(Box::new(*sb) == sb);
                },
            }
            assert(Box::new(*obj) == obj);
            assert(verb_result(toks, k) == Some(n));
            assert(parse_toks(toks) == verb_result(toks, k));
        },
    }
}

/// Round-trip at the sentence level, with no side condition: whatever a
/// sentence parses to, the tree's canonical surface text re-parses to the
/// very same tree.
pub proof fn round_trip_sentence(s: Seq<char>)
    requires
        spec_parse(s) is Some,
    ensures
        spec_parse(fmt_node(spec_parse(s)->Some_0)) == spec_parse(s),
{
    lemma_parse_wf(s);
    round_trip(spec_parse(s)->Some_0);
}

} // verus!