use bulloak::error::{Error, Formatter};
use bulloak::span::{Position, Span};
use bulloak::syntax::{parser, semantics};
use bulloak::utils::repeat_str;

#[test]
fn error_test_notate() {
    let text = "hello\nworld\n";
    let span = Span::new(Position::new(0, 2, 1), Position::new(4, 2, 5));
    let message = parser::ErrorKind::TokenUnexpected("world".to_owned()).message();
    let formatter = Formatter { text, err: &message, span: &span };
    let notated = formatter.to_string();

    let mut expected = String::from("");
    expected.push_str(&repeat_str("•", 79));
    expected.push('\n');
    expected.push_str(format!("bulloak error: {}\n\n", formatter.err).as_str());
    expected.push_str("world\n");
    expected.push_str("^^^^^\n\n");
    expected.push_str(
        format!(
            "--- (line {}, column {}) ---\n",
            formatter.span.start.line, formatter.span.start.column
        )
        .as_str(),
    );
    assert_eq!(expected, notated);
}

#[test]
fn error_test_multiple_errors() {
    let text = r"test.sol
├── when 1
└── when 2"
        .to_owned();

    let errors = Error::Semantic(semantics::Errors(vec![
        semantics::Error::new(
            semantics::ErrorKind::ConditionEmpty,
            text.clone(),
            Span::new(Position::new(9, 2, 1), Position::new(18, 2, 10)),
        ),
        semantics::Error::new(
            semantics::ErrorKind::ConditionEmpty,
            text.clone(),
            Span::new(Position::new(20, 3, 1), Position::new(29, 3, 10)),
        ),
    ]));
    let actual = errors.to_string();

    let expected = r"•••••••••••••••••••••••••••••••••••••••••••••••••••••••••••••••••••••••••••••••
bulloak error: found a condition with no children

├── when 1
^^^^^^^^^^

--- (line 2, column 1) ---
•••••••••••••••••••••••••••••••••••••••••••••••••••••••••••••••••••••••••••••••
bulloak error: found a condition with no children

└── when 2
^^^^^^^^^^

--- (line 3, column 1) ---
";

    assert_eq!(expected, actual);
}
