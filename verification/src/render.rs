//! Rendering a parse tree back to text.
//!
//! The formatter reconstructs canonical surface text with the case suffixes
//! reattached; the translator replaces each morpheme by its dictionary gloss
//! and each suffix by a connective particle.  Both walk the tree the same
//! way and are total over every tree.

use vstd::prelude::*;
use crate::noun::{concat_morphs, trans_morphs};
use crate::node::{Node, NodeV, node_view, nodes_view};
use crate::text::{ends_in, last_char_is, strip_last};

verus! {

broadcast use vstd::std_specs::vec::group_vec_axioms;

/// The text with a trailing object suffix removed, when one is there.
pub open spec fn strip_o(s: Seq<char>) -> Seq<char> {
    if ends_in(s, 'o') {
        s.drop_last()
    } else {
        s
    }
}

/// One rendered adverbial modifier: its own surface text, with the object
/// suffix swapped for the adverb suffix, and a trailing space.
pub open spec fn fmt_adv_pieces(advs: Seq<NodeV>) -> Seq<Seq<char>>
    decreases advs,
{
    if advs.len() == 0 {
        Seq::empty()
    } else {
        fmt_adv_pieces(advs.drop_last()).push(
            strip_o(fmt_node(advs.last())) + seq!['e', ' '],
        )
    }
}

/// One rendered adjective modifier, the same way with the adjective suffix.
pub open spec fn fmt_adj_pieces(adjs: Seq<NodeV>) -> Seq<Seq<char>>
    decreases adjs,
{
    if adjs.len() == 0 {
        Seq::empty()
    } else {
        fmt_adj_pieces(adjs.drop_last()).push(
            strip_o(fmt_node(adjs.last())) + seq!['a', ' '],
        )
    }
}

/// The canonical surface text of a tree: a phrase renders its possessor
/// (suffixed `i`), adjectives (suffixed `a`), then its head root with the
/// object suffix; a clause renders its subject, adverbs (suffixed `e`), its
/// verb root with the verb suffix, then its object.  Each rendered
/// component is followed by a single space.
pub open spec fn fmt_node(n: NodeV) -> Seq<char>
    decreases n,
{
    match n {
        NodeV::Verb { verb, adv, subj, obj } => (match subj {
            Some(s) => fmt_node(*s) + seq![' '],
            None => Seq::empty(),
        }) + concat_morphs(fmt_adv_pieces(adv)) + concat_morphs(verb) + seq!['u', ' ']
            + fmt_node(*obj),
        NodeV::Word { word, own, adj } => (match own {
            Some(p) => strip_o(fmt_node(*p)) + seq!['i', ' '],
            None => Seq::empty(),
        }) + concat_morphs(fmt_adj_pieces(adj)) + concat_morphs(word) + seq!['o'],
    }
}

/// One translated adverbial modifier, closed by the topic-adverbial marker.
pub open spec fn trans_adv_pieces(advs: Seq<NodeV>) -> Seq<Seq<char>>
    decreases advs,
{
    if advs.len() == 0 {
        Seq::empty()
    } else {
        trans_adv_pieces(advs.drop_last()).push(strip_o(trans_node(advs.last())) + "に"@)
    }
}

/// One translated adjective modifier, closed by the adjectival marker.
pub open spec fn trans_adj_pieces(adjs: Seq<NodeV>) -> Seq<Seq<char>>
    decreases adjs,
{
    if adjs.len() == 0 {
        Seq::empty()
    } else {
        trans_adj_pieces(adjs.drop_last()).push(strip_o(trans_node(adjs.last())) + "な"@)
    }
}

/// The gloss translation of a tree: morphemes are replaced by their
/// dictionary glosses, and the case suffixes by connective particles — the
/// subject, object, topic-adverbial, possessive and adjectival markers.
pub open spec fn trans_node(n: NodeV) -> Seq<char>
    decreases n,
{
    match n {
        NodeV::Verb { verb, adv, subj, obj } => (match subj {
            Some(s) => trans_node(*s) + "が"@,
            None => Seq::empty(),
        }) + concat_morphs(trans_adv_pieces(adv)) + trans_node(*obj) + "を"@ + trans_morphs(
            verb,
        ),
        NodeV::Word { word, own, adj } => (match own {
            Some(p) => strip_o(trans_node(*p)) + "の"@,
            None => Seq::empty(),
        }) + concat_morphs(trans_adj_pieces(adj)) + trans_morphs(word),
    }
}

/// The text with a trailing object suffix removed, when one is there.
pub fn strip_o_exec(s: &String) -> (r: String)
    ensures
        r@ == strip_o(s@),
{
    if last_char_is(s, 'o') {
        strip_last(s)
    } else {
        s.clone()
    }
}

pub proof fn lemma_nodes_view_take_succ(s: Seq<Node>, i: int)
    requires
        0 <= i < s.len(),
    ensures
        nodes_view(s.take(i + 1)) == nodes_view(s.take(i)).push(node_view(s[i])),
{
    assert(s.take(i + 1).drop_last() =~= s.take(i));
    assert(s.take(i + 1).last() == s[i]);
}

pub proof fn lemma_fmt_adv_snoc(advs: Seq<NodeV>, x: NodeV)
    ensures
        fmt_adv_pieces(advs.push(x)) == fmt_adv_pieces(advs).push(
            strip_o(fmt_node(x)) + seq!['e', ' '],
        ),
{
    assert(advs.push(x).drop_last() =~= advs);
    assert(advs.push(x).last() == x);
}

pub proof fn lemma_fmt_adj_snoc(adjs: Seq<NodeV>, x: NodeV)
    ensures
        fmt_adj_pieces(adjs.push(x)) == fmt_adj_pieces(adjs).push(
            strip_o(fmt_node(x)) + seq!['a', ' '],
        ),
{
    assert(adjs.push(x).drop_last() =~= adjs);
    assert(adjs.push(x).last() == x);
}

pub proof fn lemma_trans_adv_snoc(advs: Seq<NodeV>, x: NodeV)
    ensures
        trans_adv_pieces(advs.push(x)) == trans_adv_pieces(advs).push(
            strip_o(trans_node(x)) + "に"@,
        ),
{
    assert(advs.push(x).drop_last() =~= advs);
    assert(advs.push(x).last() == x);
}

pub proof fn lemma_trans_adj_snoc(adjs: Seq<NodeV>, x: NodeV)
    ensures
        trans_adj_pieces(adjs.push(x)) == trans_adj_pieces(adjs).push(
            strip_o(trans_node(x)) + "な"@,
        ),
{
    assert(adjs.push(x).drop_last() =~= adjs);
    assert(adjs.push(x).last() == x);
}

/// Renders a tree to its canonical surface text.
#[verifier::loop_isolation(false)]
fn fmt_exec(n: &Node) -> (r: String)
    ensures
        r@ == fmt_node(node_view(*n)),
    decreases n,
{
    let ghost nv = node_view(*n);
    match n {
        Node::Verb { verb, adv, subj, obj } => {
            let mut acc = String::new();
            match subj {
                Some(b) => {
                    let sf = fmt_exec(b);
                    acc.append(sf.as_str());
                    acc.append(" ");
                },
                None => {},
            }
            let ghost part_subj = acc@;
            proof {
                reveal_strlit(" ");
                match nv {
                    NodeV::Verb { subj: sv, .. } => {
                        match sv {
                            Some(s) => {
                                assert(part_subj =~= fmt_node(*s) + seq![' ']);
                            },
                            None => {
                                assert(part_subj =~= Seq::<char>::empty());
                            },
                        }
                    },
                    _ => {},
                }
            }
            let mut joined = String::new();
            let mut i: usize = 0;
            proof {
                assert(adv@.take(0) =~= Seq::<Node>::empty());
                assert(joined@ =~= concat_morphs(fmt_adv_pieces(nodes_view(adv@.take(0)))));
            }
            while i < adv.len()
                invariant
                    i <= adv.len(),
                    joined@ == concat_morphs(fmt_adv_pieces(nodes_view(adv@.take(i as int)))),
                decreases adv.len() - i,
            {
                let pf = fmt_exec(&adv[i]);
                let sp = strip_o_exec(&pf);
                proof {
                    lemma_nodes_view_take_succ(adv@, i as int);
                    lemma_fmt_adv_snoc(nodes_view(adv@.take(i as int)), node_view(adv@[i as int]));
                    crate::noun::lemma_concat_snoc(
                        fmt_adv_pieces(nodes_view(adv@.take(i as int))),
                        strip_o(fmt_node(node_view(adv@[i as int]))) + seq!['e', ' '],
                    );
                    reveal_strlit("e ");
                }
                joined.append(sp.as_str());
                joined.append("e ");
                proof {
                    assert(joined@ =~= concat_morphs(fmt_adv_pieces(nodes_view(adv@.take(
                        i + 1,
                    )))));
                }
                i = i + 1;
            }
            proof {
                assert(adv@.take(adv@.len() as int) =~= adv@);
            }
            acc.append(joined.as_str());
            let vf = verb.format();
            acc.append(vf.as_str());
            acc.append("u ");
            let of = fmt_exec(obj);
            acc.append(of.as_str());
            proof {
                reveal_strlit("u ");
                assert(acc@ =~= fmt_node(nv));
            }
            acc
        },
        Node::Word { word, own, adj } => {
            let mut acc = String::new();
            match own {
                Some(b) => {
                    let pf = fmt_exec(b);
                    let sp = strip_o_exec(&pf);
                    acc.append(sp.as_str());
                    acc.append("i ");
                },
                None => {},
            }
            let ghost part_own = acc@;
            proof {
                reveal_strlit("i ");
                match nv {
                    NodeV::Word { own: ov, .. } => {
                        match ov {
                            Some(p) => {
                                assert(part_own =~= strip_o(fmt_node(*p)) + seq!['i', ' ']);
                            },
                            None => {
                                assert(part_own =~= Seq::<char>::empty());
                            },
                        }
                    },
                    _ => {},
                }
            }
            let mut joined = String::new();
            let mut i: usize = 0;
            proof {
                assert(adj@.take(0) =~= Seq::<Node>::empty());
                assert(joined@ =~= concat_morphs(fmt_adj_pieces(nodes_view(adj@.take(0)))));
            }
            while i < adj.len()
                invariant
                    i <= adj.len(),
                    joined@ == concat_morphs(fmt_adj_pieces(nodes_view(adj@.take(i as int)))),
                decreases adj.len() - i,
            {
                let pf = fmt_exec(&adj[i]);
                let sp = strip_o_exec(&pf);
                proof {
                    lemma_nodes_view_take_succ(adj@, i as int);
                    lemma_fmt_adj_snoc(nodes_view(adj@.take(i as int)), node_view(adj@[i as int]));
                    crate::noun::lemma_concat_snoc(
                        fmt_adj_pieces(nodes_view(adj@.take(i as int))),
                        strip_o(fmt_node(node_view(adj@[i as int]))) + seq!['a', ' '],
                    );
                    reveal_strlit("a ");
                }
                joined.append(sp.as_str());
                joined.append("a ");
                proof {
                    assert(joined@ =~= concat_morphs(fmt_adj_pieces(nodes_view(adj@.take(
                        i + 1,
                    )))));
                }
                i = i + 1;
            }
            proof {
                assert(adj@.take(adj@.len() as int) =~= adj@);
            }
            acc.append(joined.as_str());
            let wf = word.format();
            acc.append(wf.as_str());
            acc.append("o");
            proof {
                reveal_strlit("o");
                assert(acc@ =~= fmt_node(nv));
            }
            acc
        },
    }
}

/// Renders a tree to its gloss translation.
#[verifier::loop_isolation(false)]
fn trans_exec(n: &Node) -> (r: String)
    ensures
        r@ == trans_node(node_view(*n)),
    decreases n,
{
    let ghost nv = node_view(*n);
    match n {
        Node::Verb { verb, adv, subj, obj } => {
            let mut acc = String::new();
            match subj {
                Some(b) => {
                    let sf = trans_exec(b);
                    acc.append(sf.as_str());
                    acc.append("が");
                },
                None => {},
            }
            let ghost part_subj = acc@;
            proof {
                match nv {
                    NodeV::Verb { subj: sv, .. } => {
                        match sv {
                            Some(s) => {
                                assert(part_subj =~= trans_node(*s) + "が"@);
                            },
                            None => {
                                assert(part_subj =~= Seq::<char>::empty());
                            },
                        }
                    },
                    _ => {},
                }
            }
            let mut joined = String::new();
            let mut i: usize = 0;
            proof {
                assert(adv@.take(0) =~= Seq::<Node>::empty());
                assert(joined@ =~= concat_morphs(trans_adv_pieces(nodes_view(adv@.take(0)))));
            }
            while i < adv.len()
                invariant
                    i <= adv.len(),
                    joined@ == concat_morphs(trans_adv_pieces(nodes_view(adv@.take(i as int)))),
                decreases adv.len() - i,
            {
                let pf = trans_exec(&adv[i]);
                let sp = strip_o_exec(&pf);
                proof {
                    lemma_nodes_view_take_succ(adv@, i as int);
                    lemma_trans_adv_snoc(nodes_view(adv@.take(i as int)), node_view(
                        adv@[i as int],
                    ));
                    crate::noun::lemma_concat_snoc(
                        trans_adv_pieces(nodes_view(adv@.take(i as int))),
                        strip_o(trans_node(node_view(adv@[i as int]))) + "に"@,
                    );
                }
                joined.append(sp.as_str());
                joined.append("に");
                proof {
                    assert(joined@ =~= concat_morphs(trans_adv_pieces(nodes_view(adv@.take(
                        i + 1,
                    )))));
                }
                i = i + 1;
            }
            proof {
                assert(adv@.take(adv@.len() as int) =~= adv@);
            }
            acc.append(joined.as_str());
            let of = trans_exec(obj);
            acc.append(of.as_str());
            acc.append("を");
            let vf = verb.translate();
            acc.append(vf.as_str());
            proof {
                assert(acc@ =~= trans_node(nv));
            }
            acc
        },
        Node::Word { word, own, adj } => {
            let mut acc = String::new();
            match own {
                Some(b) => {
                    let pf = trans_exec(b);
                    let sp = strip_o_exec(&pf);
                    acc.append(sp.as_str());
                    acc.append("の");
                },
                None => {},
            }
            let ghost part_own = acc@;
            proof {
                match nv {
                    NodeV::Word { own: ov, .. } => {
                        match ov {
                            Some(p) => {
                                assert(part_own =~= strip_o(trans_node(*p)) + "の"@);
                            },
                            None => {
                                assert(part_own =~= Seq::<char>::empty());
                            },
                        }
                    },
                    _ => {},
                }
            }
            let mut joined = String::new();
            let mut i: usize = 0;
            proof {
                assert(adj@.take(0) =~= Seq::<Node>::empty());
                assert(joined@ =~= concat_morphs(trans_adj_pieces(nodes_view(adj@.take(0)))));
            }
            while i < adj.len()
                invariant
                    i <= adj.len(),
                    joined@ == concat_morphs(trans_adj_pieces(nodes_view(adj@.take(i as int)))),
                decreases adj.len() - i,
            {
                let pf = trans_exec(&adj[i]);
                let sp = strip_o_exec(&pf);
                proof {
                    lemma_nodes_view_take_succ(adj@, i as int);
                    lemma_trans_adj_snoc(nodes_view(adj@.take(i as int)), node_view(
                        adj@[i as int],
                    ));
                    crate::noun::lemma_concat_snoc(
                        trans_adj_pieces(nodes_view(adj@.take(i as int))),
                        strip_o(trans_node(node_view(adj@[i as int]))) + "な"@,
                    );
                }
                joined.append(sp.as_str());
                joined.append("な");
                proof {
                    assert(joined@ =~= concat_morphs(trans_adj_pieces(nodes_view(adj@.take(
                        i + 1,
                    )))));
                }
                i = i + 1;
            }
            proof {
                assert(adj@.take(adj@.len() as int) =~= adj@);
            }
            acc.append(joined.as_str());
            let wf = word.translate();
            acc.append(wf.as_str());
            proof {
                assert(acc@ =~= trans_node(nv));
            }
            acc
        },
    }
}

impl Node {
    /// The canonical surface text of the tree, as `fmt_node` describes;
    /// total over every tree.
    pub fn format(&self) -> (r: String)
        ensures
            r@ == fmt_node(node_view(*self)),
    {
        fmt_exec(self)
    }

    /// The gloss translation of the tree, as `trans_node` describes; total
    /// over every tree.
    pub fn translate(&self) -> (r: String)
        ensures
            r@ == trans_node(node_view(*self)),
    {
        trans_exec(self)
    }
}

} // verus!
