use lingvo::node::Node;
use lingvo::noun::Noun;
use lingvo::vocab::Vocabulary;

fn noun(parts: &[&str]) -> Noun {
    Noun(parts.iter().map(|p| Vocabulary(p.to_string())).collect())
}

#[test]
fn simple_clause_structure() {
    // subject root "mi", verb segmented from "prosact", object from "lang"
    let ast = Node::parse("mio prosactu lango").expect("clause must parse");
    match ast {
        Node::Verb { verb, adv, subj, obj } => {
            assert_eq!(verb, noun(&["pros", "act"]));
            assert!(adv.is_empty());
            match subj.expect("subject present").as_ref() {
                Node::Word { word, own, adj } => {
                    assert_eq!(*word, noun(&["mi"]));
                    assert!(own.is_none());
                    assert!(adj.is_empty());
                },
                _ => panic!("subject must be a phrase"),
            }
            match obj.as_ref() {
                Node::Word { word, own, adj } => {
                    assert_eq!(*word, noun(&["lang"]));
                    assert!(own.is_none());
                    assert!(adj.is_empty());
                },
                _ => panic!("object must be a phrase"),
            }
        },
        _ => panic!("expected a clause"),
    }
}

#[test]
fn object_with_residue_fails() {
    // "langao" strips to "langa", whose trailing "a" matches no morpheme
    assert!(Node::parse("mio prosactu langao").is_none());
}

#[test]
fn empty_input_fails() {
    assert!(Node::parse("").is_none());
}

#[test]
fn unrecognised_token_fails() {
    assert!(Node::parse("xyz").is_none());
}

#[test]
fn verb_last_fails() {
    // clause-object mandatoriness: no object span after the verb
    assert!(Node::parse("mio estu").is_none());
    assert!(Node::parse("estu").is_none());
    assert!(Node::parse("mio prosactu lango estu").is_none());
}

#[test]
fn single_token_needs_object_suffix() {
    assert!(Node::parse("mio").is_some());
    assert!(Node::parse("miu").is_none());
    assert!(Node::parse("mia").is_none());
    assert!(Node::parse("mi").is_none());
}

#[test]
fn proper_noun_object() {
    let ast = Node::parse("mio estu Fugoo").expect("must parse");
    match &ast {
        Node::Verb { verb, obj, .. } => {
            assert_eq!(*verb, noun(&["est"]));
            match obj.as_ref() {
                Node::Word { word, .. } => assert_eq!(*word, noun(&["Fugo"])),
                _ => panic!("object must be a phrase"),
            }
        },
        _ => panic!("expected a clause"),
    }
}

#[test]
fn possessive_run_becomes_possessor() {
    let ast = Node::parse("mii homo").expect("must parse");
    match ast {
        Node::Word { word, own, adj } => {
            assert_eq!(word, noun(&["hom"]));
            assert!(adj.is_empty());
            match own.expect("possessor present").as_ref() {
                Node::Word { word, .. } => assert_eq!(*word, noun(&["mi"])),
                _ => panic!("possessor must be a phrase"),
            }
        },
        _ => panic!("expected a phrase"),
    }
}

#[test]
fn adjective_attaches_to_head() {
    let ast = Node::parse("komona lango").expect("must parse");
    match ast {
        Node::Word { word, own, adj } => {
            assert_eq!(word, noun(&["lang"]));
            assert!(own.is_none());
            assert_eq!(adj.len(), 1);
            match &adj[0] {
                Node::Word { word, .. } => assert_eq!(*word, noun(&["komon"])),
                _ => panic!("modifier must be a phrase"),
            }
        },
        _ => panic!("expected a phrase"),
    }
}

#[test]
fn possessor_with_adjective() {
    // the possessive run carries its own adjective
    let ast = Node::parse("komona langa-li prosactisto").expect("must parse");
    match ast {
        Node::Word { word, own, adj } => {
            assert_eq!(word, noun(&["pros", "act", "ist"]));
            assert!(adj.is_empty());
            match own.expect("possessor present").as_ref() {
                Node::Word { word, adj, .. } => {
                    assert_eq!(*word, noun(&["lang", "a-l"]));
                    assert_eq!(adj.len(), 1);
                },
                _ => panic!("possessor must be a phrase"),
            }
        },
        _ => panic!("expected a phrase"),
    }
}

#[test]
fn nested_clause_as_object() {
    let ast = Node::parse("c^u yuo estu i-tcana homa-lo").expect("must parse");
    match ast {
        Node::Verb { verb, subj, obj, .. } => {
            assert_eq!(verb, noun(&["c^"]));
            assert!(subj.is_none());
            match obj.as_ref() {
                Node::Verb { verb, subj, obj, .. } => {
                    assert_eq!(*verb, noun(&["est"]));
                    assert!(subj.is_some());
                    match obj.as_ref() {
                        Node::Word { word, adj, .. } => {
                            assert_eq!(*word, noun(&["hom", "a-l"]));
                            assert_eq!(adj.len(), 1);
                        },
                        _ => panic!("inner object must be a phrase"),
                    }
                },
                _ => panic!("object must be a nested clause"),
            }
        },
        _ => panic!("expected a clause"),
    }
}

#[test]
fn whitespace_is_only_a_separator() {
    let a = Node::parse("mio estu Fugoo").expect("must parse");
    let b = Node::parse("  mio \t estu \n  Fugoo  ").expect("must parse");
    assert_eq!(a.format(), b.format());
    assert_eq!(a.translate(), b.translate());
}

#[test]
fn uppercase_first_character_bypasses_segmentation() {
    // "Fugo" is kept verbatim; lowercase "fugo" must segment and cannot
    assert!(Node::parse("Fugoo").is_some());
    assert!(Node::parse("fugoo").is_none());
}

#[test]
fn numeric_tokens_are_kept_verbatim() {
    let ast = Node::parse("3.14o").expect("number must parse");
    match ast {
        Node::Word { word, .. } => assert_eq!(word, noun(&["3.14"])),
        _ => panic!("expected a phrase"),
    }
    assert!(Node::parse("1e3o").is_some());
    assert!(Node::parse("-7o").is_some());
    assert!(Node::parse("nano").is_some());
    assert!(Node::parse("1.2.3o").is_none());
}
