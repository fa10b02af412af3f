use bulloak::span::{Position, Span};
use bulloak::syntax::ast::{Action, Ast, Condition, Description, Root};
use bulloak::syntax::parser::{Error, ErrorKind, Parser};
use bulloak::syntax::tokenizer::Tokenizer;

fn p(offset: usize, line: usize, column: usize) -> Position {
    Position::new(offset, line, column)
}

fn s(start: Position, end: Position) -> Span {
    Span::new(start, end)
}

fn parse(file_contents: &str) -> Result<Ast, Error> {
    let tokens = Tokenizer::new().tokenize(file_contents).unwrap();
    Parser::new().parse(file_contents, &tokens)
}

fn check_err(res: Result<Ast, Error>, kind: ErrorKind, span: Span) {
    let err = res.unwrap_err();
    assert_eq!(err.kind, kind);
    assert_eq!(err.span, span);
}

    #[test]
    fn empty_tree() {
        check_err(parse(""), ErrorKind::TreeEmpty, Span::default());
    }

    #[test]
    fn rootless_tree() {
        check_err(parse("└── It should never revert."), ErrorKind::TreeRootless, Span::default());
        check_err(parse("├── It should revert."), ErrorKind::TreeRootless, Span::default());
        check_err(parse("└── When stuff happens"), ErrorKind::TreeRootless, Span::default());
        check_err(parse("├── When stuff happens"), ErrorKind::TreeRootless, Span::default());
        check_err(parse("└── this is a description"), ErrorKind::TreeRootless, Span::default());
    }

    #[test]
    fn tee_last_child_errors() {
        check_err(parse("Foo_Test\n├── when something bad happens\n   └── it should revert"), ErrorKind::TeeLastChild, Span::splat(p(9, 2, 1)));
    }

    #[test]
    fn corner_not_last_child_errors() {
        check_err(parse(
                r"Foo_Test
└── when something bad happens
   └── it should revert
└── when something happens
   └── it should not revert"
            ), ErrorKind::CornerNotLastChild, Span::splat(p(9, 2, 1)));
    }

    #[test]
    fn only_contract_name() {
        assert_eq!(
            parse("FooTest").unwrap(),
            Ast::Root(Root {
                span: s(p(0, 1, 1), p(6, 1, 7)),
                children: vec![],
                contract_name: String::from("FooTest"),
            })
        );
    }

    #[test]
    fn one_child() {
        assert_eq!(
            parse("Foo_Test\n└── when something bad happens\n   └── it should revert").unwrap(),
            Ast::Root(Root {
                contract_name: String::from("Foo_Test"),
                span: s(p(0, 1, 1), p(74, 3, 23)),
                children: vec![Ast::Condition(Condition {
                    span: s(p(9, 2, 1), p(74, 3, 23)),
                    title: String::from("when something bad happens"),
                    children: vec![Ast::Action(Action {
                        span: s(p(49, 3, 4), p(74, 3, 23)),
                        title: String::from("it should revert"),
                        children: vec![]
                    })],
                })],
            })
        );
    }

    #[test]
    fn one_action_description() {
        assert_eq!(
            parse(
                r"Foo_Test
└── when something bad happens
   └── it should revert
      └── because _bad_"
            )
            .unwrap(),
            Ast::Root(Root {
                span: s(p(0, 1, 1), p(104, 4, 23)),
                children: vec![Ast::Condition(Condition {
                    span: s(p(9, 2, 1), p(104, 4, 23)),
                    title: String::from("when something bad happens"),
                    children: vec![Ast::Action(Action {
                        span: s(p(49, 3, 4), p(104, 4, 23)),
                        title: String::from("it should revert"),
                        children: vec![Ast::ActionDescription(Description {
                            span: s(p(82, 4, 7), p(104, 4, 23)),
                            text: String::from("   because _bad_"),
                        })]
                    })],
                })],
                contract_name: String::from("Foo_Test"),
            })
        );
    }

    #[test]
    fn nested_action_descriptions() {
        assert_eq!(
            parse(
                r"Foo_Test
└── when something bad happens
   └── it should revert
      ├── some stuff happened
      │  └── and that stuff
      └── was very _bad_"
            )
            .unwrap(),
            Ast::Root(Root {
                span: s(p(0, 1, 1), p(177, 6, 24)),
                children: vec![Ast::Condition(Condition {
                    span: s(p(9, 2, 1), p(177, 6, 24)),
                    title: String::from("when something bad happens"),
                    children: vec![Ast::Action(Action {
                        span: s(p(49, 3, 4), p(177, 6, 24)),
                        title: String::from("it should revert"),
                        children: vec![
                            Ast::ActionDescription(Description {
                                span: s(p(82, 4, 7), p(110, 4, 29)),
                                text: String::from("   some stuff happened"),
                            }),
                            Ast::ActionDescription(Description {
                                span: s(p(123, 5, 10), p(146, 5, 27)),
                                text: String::from("      and that stuff"),
                            }),
                            Ast::ActionDescription(Description {
                                span: s(p(154, 6, 7), p(177, 6, 24)),
                                text: String::from("   was very _bad_"),
                            }),
                        ]
                    })],
                })],
                contract_name: String::from("Foo_Test"),
            })
        );
    }

    #[test]
    fn unexpected_tokens() {
        check_err(parse(r"a └ └"), ErrorKind::TokenUnexpected("└".to_owned()), Span::splat(p(6, 1, 5)));
        check_err(parse(r"a ├ ├"), ErrorKind::TokenUnexpected("├".to_owned()), Span::splat(p(6, 1, 5)));
        check_err(parse(r"a └"), ErrorKind::EofUnexpected, Span::splat(p(2, 1, 3)));
        check_err(parse(r"a └ when"), ErrorKind::TitleMissing, s(p(6, 1, 5), p(9, 1, 8)));
        check_err(parse(r"a ├"), ErrorKind::EofUnexpected, Span::splat(p(2, 1, 3)));
        check_err(parse(r"a when"), ErrorKind::WhenUnexpected, s(p(2, 1, 3), p(5, 1, 6)));
        check_err(parse(r"a given"), ErrorKind::GivenUnexpected, s(p(2, 1, 3), p(6, 1, 7)));
        check_err(parse(r"a it"), ErrorKind::ItUnexpected, s(p(2, 1, 3), p(3, 1, 4)));
        check_err(parse(r"a b"), ErrorKind::WordUnexpected("b".to_owned()), Span::splat(p(2, 1, 3)));
    }

    #[test]
    fn descriptions_are_the_only_action_children() {
        check_err(parse(
                r"Foo_Test
└── when something bad happens
   └── it should revert
      └── it because _bad_"
            ), 
                ErrorKind::DescriptionTokenUnexpected("it".to_owned()),
                s(p(92, 4, 11), p(93, 4, 12))
            );
    }

    #[test]
    fn two_children() {
        assert_eq!(
            parse(
                r"FooBarTheBest_Test
├── when stuff called
│  └── it should revert
└── given not stuff called
   └── it should revert"
            )
            .unwrap(),
            Ast::Root(Root {
                contract_name: String::from("FooBarTheBest_Test"),
                span: s(p(0, 1, 1), p(140, 5, 23)),
                children: vec![
                    Ast::Condition(Condition {
                        title: String::from("when stuff called"),
                        span: s(p(19, 2, 1), p(77, 3, 23)),
                        children: vec![Ast::Action(Action {
                            title: String::from("it should revert"),
                            span: s(p(52, 3, 4), p(77, 3, 23)),
                            children: vec![]
                        })],
                    }),
                    Ast::Condition(Condition {
                        title: String::from("given not stuff called"),
                        span: s(p(79, 4, 1), p(140, 5, 23)),
                        children: vec![Ast::Action(Action {
                            title: String::from("it should revert"),
                            span: s(p(115, 5, 4), p(140, 5, 23)),
                            children: vec![]
                        })],
                    }),
                ],
            })
        );
    }

    // https://github.com/alexfertel/bulloak/issues/54
    #[test]
    fn parses_top_level_actions() {
        assert_eq!(
            parse(
                r#"Foo
└── It reverts when X."#
            )
            .unwrap(),
            Ast::Root(Root {
                contract_name: String::from("Foo"),
                span: s(p(0, 1, 1), p(31, 2, 22)),
                children: vec![Ast::Action(Action {
                    title: String::from("It reverts when X."),
                    span: s(p(4, 2, 1), p(31, 2, 22)),
                    children: vec![]
                })],
            })
        );
    }

    #[test]
    fn unsanitized_input() {
        assert_eq!(
            parse(
                r#"FooB-rTheBestOf_Test
└── when st-ff "all'd
   └── it should revert"#
            )
            .unwrap(),
            Ast::Root(Root {
                contract_name: String::from("FooB-rTheBestOf_Test"),
                span: s(p(0, 1, 1), p(77, 3, 23)),
                children: vec![Ast::Condition(Condition {
                    title: String::from("when st_ff alld"),
                    span: s(p(21, 2, 1), p(77, 3, 23)),
                    children: vec![Ast::Action(Action {
                        title: String::from("it should revert"),
                        span: s(p(52, 3, 4), p(77, 3, 23)),
                        children: vec![]
                    })],
                })],
            })
        );
    }

#[test]
fn root_spans_all_tokens() {
    for text in [
        "Foo",
        "Foo\n└── when a\n    ├── it b\n    │   └── because c\n    └── when d\n        └── it e",
        "Foo\n├── it a\n└── given b\n    └── it c",
    ] {
        let tokens = Tokenizer::new().tokenize(text).unwrap();
        let ast = Parser::new().parse(text, &tokens).unwrap();
        assert_eq!(*ast.span(), s(tokens[0].span.start, tokens[tokens.len() - 1].span.end));
    }
}
