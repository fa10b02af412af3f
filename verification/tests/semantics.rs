use bulloak::span::{Position, Span};
use bulloak::syntax::ast;
use bulloak::syntax::parser::Parser;
use bulloak::syntax::semantics::{self, ErrorKind::ConditionEmpty, ErrorKind::IdentifierDuplicated, ErrorKind::NodeUnexpected};
use bulloak::syntax::tokenizer::Tokenizer;

fn analyze(text: &str) -> Result<(), semantics::Errors> {
    let tokens = Tokenizer::new().tokenize(text).unwrap();
    let ast = Parser::new().parse(text, &tokens).unwrap();
    let mut analyzer = semantics::SemanticAnalyzer::new(text);
    analyzer.analyze(&ast)?;

    Ok(())
}

#[test]
fn unexpected_node() {
    let ast = ast::Ast::Root(ast::Root {
        contract_name: "Foo_Test".to_owned(),
        children: vec![ast::Ast::Root(ast::Root {
            contract_name: "Foo_Test".to_owned(),
            children: vec![],
            span: Span::new(Position::new(0, 1, 1), Position::new(7, 1, 8)),
        })],
        span: Span::new(Position::new(0, 1, 1), Position::new(7, 1, 8)),
    });

    let mut analyzer = semantics::SemanticAnalyzer::new("Foo_Test");
    let result = analyzer.analyze(&ast);
    assert_eq!(
        result.unwrap_err().0,
        vec![semantics::Error {
            kind: NodeUnexpected,
            text: "Foo_Test".to_owned(),
            span: Span::new(Position::new(0, 1, 1), Position::new(7, 1, 8)),
        }]
    );
}

#[test]
fn duplicated_condition() {
    assert_eq!(
        analyze(
            "Foo_Test
├── when dup
│   └── It 1
├── when dup
│   └── It 2
└── when dup
    └── It 3",
        )
        .unwrap_err()
        .0,
        vec![semantics::Error {
            kind: IdentifierDuplicated(vec![
                Span::new(Position::new(9, 2, 1), Position::new(47, 3, 12)),
                Span::new(Position::new(49, 4, 1), Position::new(87, 5, 12)),
                Span::new(Position::new(89, 6, 1), Position::new(125, 7, 12)),
            ],),
            text: "Foo_Test\n├── when dup\n│   └── It 1\n├── when dup\n│   └── It 2\n└── when dup\n    └── It 3".to_owned(),
            span: Span::new(Position::new(9, 2, 1), Position::new(9, 2, 1)),
        }]
    );
}

#[test]
fn duplicated_top_level_action() {
    assert_eq!(
        analyze(
            "Foo_Test
├── It should, match the result.
└── It should' match the result.",
        )
        .unwrap_err()
        .0,
        vec![semantics::Error {
            kind: IdentifierDuplicated(vec![
                Span::new(Position::new(9, 2, 1), Position::new(46, 2, 32)),
                Span::new(Position::new(48, 3, 1), Position::new(85, 3, 32))
            ]),
            text: "Foo_Test\n├── It should, match the result.\n└── It should' match the result.".to_owned(),
            span: Span::new(Position::new(9, 2, 1), Position::new(9, 2, 1))
        }]
    );
}

#[test]
fn condition_empty() {
    assert_eq!(
        analyze("Foo_Test\n└── when something").unwrap_err().0,
        vec![semantics::Error {
            kind: ConditionEmpty,
            text: "Foo_Test\n└── when something".to_owned(),
            span: Span::new(Position::new(9, 2, 1), Position::new(32, 2, 18)),
        }]
    );
}

#[test]
fn allow_action_without_conditions() {
    assert!(analyze("Foo_Test\n└── it a something").is_ok());
}
