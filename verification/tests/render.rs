use lingvo::node::Node;

#[test]
fn format_reproduces_canonical_sentence() {
    let ast = Node::parse("komona langa-li prosactisto").expect("must parse");
    assert_eq!(ast.format(), "komona langa-li prosactisto");
}

#[test]
fn format_is_stable_under_reparse() {
    // round-trip: format output re-parses to a tree with the same rendering
    for s in [
        "mio estu Fugoo",
        "komona langa-li prosactisto",
        "c^u yuo estu i-tcana homa-lo",
        "mio lavu k^alkwazista d^a-lacto",
        "internacia-lo estilu bes^homa-lo",
        "10o divnamu 5o pulnamu Fugo",
    ] {
        let ast = Node::parse(s).expect("must parse");
        let once = ast.format();
        let again = Node::parse(&once).expect("format output must re-parse");
        assert_eq!(again.format(), once);
        assert_eq!(again.translate(), ast.translate());
    }
}

#[test]
fn format_canonicalises_stranded_tokens() {
    // "finale" sits in the object span, where a bare token before an
    // adjective-suffixed one joins a pending run that the head discards
    let ast = Node::parse("d:ideito estu finale decilita batlwa-ro").expect("must parse");
    assert_eq!(ast.format(), "d:ideito estu decilita batlwa-ro");
}

#[test]
fn translate_simple_clause() {
    let ast = Node::parse("internacia-lo estilu bes^homa-lo").expect("must parse");
    assert_eq!(ast.translate(), "中に越え国家集合が全て人間集合を説明未来");
}

#[test]
fn translate_phrase_with_possessor_and_adjective() {
    let ast = Node::parse("komona langa-li prosactisto").expect("must parse");
    assert_eq!(ast.translate(), "共通な言葉集合の処理するもの");
}

#[test]
fn translate_nested_clause() {
    let ast = Node::parse("c^u yuo estu i-tcana homa-lo").expect("must parse");
    assert_eq!(ast.translate(), "あなたが食べる可能な人間集合を説明を疑問");
}

#[test]
fn translate_keeps_unknown_roots_verbatim() {
    let ast = Node::parse("10o divnamu 5o pulnamu Fugo").expect("must parse");
    assert_eq!(ast.translate(), "10が5がFugを引き数を割り数");
}

#[test]
fn format_attaches_suffixes() {
    let ast = Node::parse("mio lavu k^alkwazista d^a-lacto").expect("must parse");
    assert_eq!(ast.format(), "mio lavu k^alkwazista d^a-lacto");
    assert_eq!(ast.translate(), "私が計算技術ものな命令集合するを愛");
}
