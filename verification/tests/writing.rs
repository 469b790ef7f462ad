use sl_interp::parser::Parser;
use sl_interp::sexpr::SExpr;
use sl_interp::writing::forest_to_text;

fn atom(text: &str) -> SExpr {
    SExpr::Atom(text.to_string())
}

fn list(items: Vec<SExpr>) -> SExpr {
    SExpr::List(items)
}

#[test]
fn an_atom_is_written_as_it_is() {
    assert_eq!(atom("abc").to_text(), "abc");
    assert_eq!(atom("-1.5").to_text(), "-1.5");
}

#[test]
fn a_list_is_written_between_parentheses() {
    assert_eq!(list(vec![]).to_text(), "()");
    assert_eq!(list(vec![atom("a")]).to_text(), "(a)");
    assert_eq!(list(vec![atom("a"), atom("b")]).to_text(), "(a b)");
    assert_eq!(
        list(vec![atom("let"), atom("x"), list(vec![atom("mod"), atom("7"), atom("3")])])
            .to_text(),
        "(let x (mod 7 3))"
    );
    assert_eq!(list(vec![list(vec![]), list(vec![list(vec![])])]).to_text(), "(() (()))");
}

#[test]
fn trees_are_written_with_a_blank_between() {
    assert_eq!(forest_to_text(&vec![]), "");
    assert_eq!(forest_to_text(&vec![atom("a")]), "a");
    assert_eq!(
        forest_to_text(&vec![atom("a"), list(vec![atom("b")]), atom("c")]),
        "a (b) c"
    );
}

#[test]
fn what_is_written_is_read_back() {
    let forests = vec![
        vec![],
        vec![atom("x")],
        vec![list(vec![])],
        vec![atom("a"), atom("b")],
        vec![list(vec![atom("print"), list(vec![atom("get"), atom("i")])])],
        vec![
            list(vec![atom("let"), atom("x"), atom("5")]),
            list(vec![
                atom("if"),
                list(vec![atom("eq"), list(vec![atom("get"), atom("x")]), atom("5")]),
                list(vec![list(vec![atom("print"), atom("1")])]),
                atom("else"),
                list(vec![list(vec![atom("print"), atom("2")])]),
            ]),
        ],
        vec![list(vec![list(vec![list(vec![list(vec![atom("é{}")])])])])],
    ];
    for forest in forests {
        let text = forest_to_text(&forest);
        assert_eq!(Parser::new(&text).parse(), Ok(forest));
    }
}

#[test]
fn a_tree_is_read_back_whatever_the_white_space() {
    let tree = list(vec![atom("a"), list(vec![atom("b"), atom("c")]), atom("d")]);
    let text = tree.to_text();
    let spread = text.replace(' ', " \n\t ").replace('(', " ( ").replace(')', " ) ");
    assert_eq!(Parser::new(&text).parse(), Ok(vec![list(vec![
        atom("a"),
        list(vec![atom("b"), atom("c")]),
        atom("d"),
    ])]));
    assert_eq!(Parser::new(&spread).parse(), Parser::new(&text).parse());
    assert_eq!(Parser::new(&spread).parse().unwrap()[0], tree);
}
