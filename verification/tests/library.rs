use bulloak::config::{Commands, Config};
use bulloak::error::{Error, Formatter};
use bulloak::hir::combiner::Combiner;
use bulloak::hir::{self, FunctionTy, Hir};
use bulloak::scaffold::modifiers::ModifierDiscoverer;
use bulloak::scaffold::emitter::Emitter;
use bulloak::scaffold::{scaffold, Scaffold};
use bulloak::span::{Position, Span};
use bulloak::syntax::tokenizer::ErrorKind;
use bulloak::syntax::{parse, parser};
use bulloak::utils::{
    decimal, get_contract_name_from_identifier, get_function_name_from_identifier, join_strings, replace_str, sanitize, split_and_retain_delimiter, split_trees, to_pascal_case,
    trim_end_str,
};

#[test]
fn split_pieces_give_back_the_input() {
    for (s, d) in [("a--b--", "--"), ("", "x"), ("abc", ""), ("xxx", "x")] {
        assert_eq!(split_and_retain_delimiter(s, d).concat(), s);
    }
}

#[test]
fn sanitizing_twice_changes_nothing() {
    for s in ["Fi-eTest", "st-ff \"all'd", "a b-c", "ÿ-é"] {
        let once = sanitize(s);
        assert_eq!(sanitize(&once), once);
    }
    assert_eq!(sanitize("st-ff \"all'd"), "st_ff alld");
}

#[test]
fn combining_keeps_every_test_and_modifier_once() {
    let trees = [
        "Contract::f1\n└── when a\n    ├── when b\n    │   └── it x\n    └── it y",
        "Contract::f2\n└── when a\n    ├── when c\n    │   └── it z\n    └── it w",
    ];
    let hirs: Vec<Hir> = trees.iter().map(|t| hir::translate_tree_to_hir(t).unwrap()).collect();
    let tests_before: usize = hirs
        .iter()
        .map(|h| match h.find_contract() {
            Some(c) => c.children.iter().filter(|f| matches!(f, Hir::FunctionDefinition(f) if f.ty == FunctionTy::Function)).count(),
            None => 0,
        })
        .sum();
    let combined = Combiner::new().combine(&hirs).unwrap();
    let contract = combined.find_contract().unwrap();
    let tests_after = contract
        .children
        .iter()
        .filter(|f| matches!(f, Hir::FunctionDefinition(f) if f.ty == FunctionTy::Function))
        .count();
    assert_eq!(tests_before, 4);
    assert_eq!(tests_after, tests_before);
    let modifiers: Vec<&str> = contract
        .children
        .iter()
        .filter_map(|f| match f {
            Hir::FunctionDefinition(f) if f.ty == FunctionTy::Modifier => Some(f.identifier.as_str()),
            _ => None,
        })
        .collect();
    assert_eq!(modifiers, vec!["whenA"]);
}

#[test]
fn discovery_maps_titles_to_camel_case() {
    let text = "Foo\n└── when the Sky is blue\n    ├── given a-b\n    │   └── it x\n    └── it y";
    let ast = parse(text).unwrap();
    let mut discoverer = ModifierDiscoverer::new();
    let modifiers = discoverer.discover(&ast);
    assert_eq!(modifiers.get("when the Sky is blue").map(String::as_str), Some("whenTheSkyIsBlue"));
    assert_eq!(modifiers.get("given a_b").map(String::as_str), Some("givenA_b"));
    assert_eq!(modifiers.len(), 2);
}

#[test]
fn translates_files_of_several_trees() {
    let text = "A::f\n└── it x\n\n\nA::g\n└── it y";
    let h = hir::translate(text).unwrap();
    let c = h.find_contract().unwrap();
    assert_eq!(c.identifier, "A");
    assert_eq!(c.children.len(), 2);
    let err = hir::translate("A::f\n└── it x\n\nB::g\n└── it y").unwrap_err();
    match &err {
        Error::Combine(e) => assert_eq!(e.text, "B::g"),
        other => panic!("unexpected error {other:?}"),
    }
    assert_eq!(
        err.to_string(),
        "•••••••••••••••••••••••••••••••••••••••••••••••••••••••••••••••••••••••••••••••\nbulloak error: contract name mismatch: expected 'A', found 'B'"
    );
}

#[test]
fn scaffolds_with_the_configured_version() {
    let mut cfg = Config::default();
    if let Commands::Scaffold(s) = &mut cfg.command {
        s.solidity_version = "0.8.19".to_owned();
    }
    let code = scaffold("Foo\n└── it works", &cfg).unwrap();
    assert_eq!(code, "// SPDX-License-Identifier: UNLICENSED\npragma solidity 0.8.19;\n\ncontract Foo {\n  function test_Works() external {\n    // it works\n  }\n}");
    let err = scaffold("Foo\n└── when x", &cfg).unwrap_err();
    assert!(err.to_string().contains("found a condition with no children"));
    let err = scaffold("", &cfg).unwrap_err();
    assert!(err.to_string().contains("found an empty tree"));
}

#[test]
fn config_sets_vm_skip_only() {
    let cfg = Config::default();
    let with = cfg.with_vm_skip(true);
    match (&cfg.command, &with.command) {
        (Commands::Scaffold(a), Commands::Scaffold(b)) => {
            assert!(!a.with_vm_skip);
            assert!(b.with_vm_skip);
            assert_eq!(a.solidity_version, b.solidity_version);
            assert_eq!(b.solidity_version, "0.8.0");
        }
        _ => panic!("expected the scaffold command"),
    }
    let s = Scaffold::default();
    assert!(s.files.is_empty() && !s.write_files && !s.force_write && !s.skip_modifiers);
    assert_eq!(cfg.scaffold().solidity_version, "0.8.0");
}

#[test]
fn reports_errors_with_their_position() {
    let err = parse("Foo\n└── when |x").unwrap_err();
    match &err {
        Error::Tokenize(e) => assert_eq!(e.kind, ErrorKind::IdentifierCharInvalid('|')),
        other => panic!("unexpected error {other:?}"),
    }
    assert_eq!(
        err.to_string(),
        "•••••••••••••••••••••••••••••••••••••••••••••••••••••••••••••••••••••••••••••••\nbulloak error: invalid identifier: '|'\n\n└── when |x\n         ^\n\n--- (line 2, column 10) ---\n"
    );
    let span = Span::new(Position::new(0, 0, 0), Position::new(0, 0, 0));
    let f = Formatter::new("text", "message", &span);
    assert_eq!(f.to_string(), "•••••••••••••••••••••••••••••••••••••••••••••••••••••••••••••••••••••••••••••••\nbulloak error: message");
    let span = Span::new(Position::new(5, 9, 3), Position::new(6, 9, 4));
    assert_eq!(Formatter::new("a\r\nb\n", "m", &span).notate(), "");
    let span = Span::new(Position::new(1, 1, 2), Position::new(1, 1, 1));
    assert_eq!(Formatter::new("ab\r\ncd\n", "m", &span).notate(), "ab\n ^\n");
    assert_eq!(parser::ErrorKind::WordUnexpected("w".to_owned()).message(), "unexpected `word` 'w'");
}

#[test]
fn string_helpers() {
    assert_eq!(decimal(0), "0");
    assert_eq!(decimal(1207), "1207");
    assert_eq!(replace_str("contract A {} contract A", "contract A", "contract B"), "contract B {} contract B");
    assert_eq!(replace_str("abc", "x", "y"), "abc");
    assert_eq!(join_strings(&vec!["a".to_owned(), "b".to_owned()], "\n\n"), "a\n\nb");
    assert_eq!(trim_end_str("a b \n\t"), "a b");
    assert_eq!(to_pascal_case("  when   it  rains "), "WhenItRains");
    assert_eq!(split_trees("  \n\n "), vec![String::new()]);
}

#[test]
fn identifier_parts_and_spans() {
    assert_eq!(get_contract_name_from_identifier("Foo-Bar::baz"), Some("Foo_Bar".to_owned()));
    assert_eq!(get_contract_name_from_identifier("::baz"), None);
    assert_eq!(get_function_name_from_identifier("Foo::ba-z"), Some("ba_z".to_owned()));
    assert_eq!(get_function_name_from_identifier("Foo"), None);
    assert_eq!(get_function_name_from_identifier("Foo:: "), None);
    let f = bulloak::hir::FunctionDefinition {
        identifier: "m".to_owned(),
        ty: FunctionTy::Modifier,
        span: Default::default(),
        modifiers: None,
        children: None,
    };
    assert!(f.is_modifier() && f.is_function());
    let p = Position::new(3, 1, 4);
    let q = Position::new(9, 2, 1);
    assert_eq!(Span::splat(p).with_end(q), Span::new(p, q));
    assert_eq!(Span::splat(q).with_start(p), Span::new(p, q));
}

#[test]
fn tests_follow_the_order_of_the_tree() {
    let text = "Foo\n├── it a\n├── when b\n│   ├── it c\n│   │   └── because d\n│   ├── when e\n│   │   └── it f\n│   └── given g\n│       └── it h\n└── it i";
    let h = hir::translate(text).unwrap();
    let c = h.find_contract().unwrap();
    let comments: Vec<&str> = c
        .children
        .iter()
        .filter_map(|f| match f {
            Hir::FunctionDefinition(f) if f.ty == FunctionTy::Function => f.children.as_ref(),
            _ => None,
        })
        .flatten()
        .filter_map(|k| match k {
            Hir::Comment(c) => Some(c.lexeme.as_str()),
            _ => None,
        })
        .collect();
    assert_eq!(comments, vec!["it a", "it c", "    because d", "it f", "it h", "it i"]);
}

#[test]
fn scaffolds_the_readme_example() {
    let text = "FooTest\n└── When stuff is called // Comments are supported.\n    └── When a condition is met\n        └── It should revert.\n            └── Because we shouldn't allow it.";
    let code = scaffold(text, &Config::default()).unwrap();
    assert_eq!(
        code,
        "// SPDX-License-Identifier: UNLICENSED
pragma solidity 0.8.0;

contract FooTest {
  modifier whenStuffIsCalled() {
    _;
  }

  function test_RevertWhen_AConditionIsMet()
    external
    whenStuffIsCalled
  {
    // It should revert.
    //     Because we shouldn't allow it.
  }
}"
    );
}

#[test]
fn revert_titles() {
    let name = |action: &str| {
        let text = format!("Foo\n└── when x\n    └── {action}");
        let h = hir::translate(&text).unwrap();
        let c = h.find_contract().unwrap();
        match &c.children[0] {
            Hir::FunctionDefinition(f) => f.identifier.clone(),
            other => panic!("unexpected node {other:?}"),
        }
    };
    assert_eq!(name("it should revert"), "test_RevertWhen_X");
    assert_eq!(name("It should revert."), "test_RevertWhen_X");
    assert_eq!(name("IT SHOULD REVERT"), "test_WhenX");
    assert_eq!(name("it should revert."), "test_WhenX");
    assert_eq!(name("it should revert!"), "test_WhenX");
}

#[test]
fn scaffolds_skipped_tests_and_no_modifiers() {
    let mut cfg = Config::default();
    if let Commands::Scaffold(s) = &mut cfg.command {
        s.with_vm_skip = true;
    }
    let code = scaffold("Foo\n└── it works", &cfg).unwrap();
    assert_eq!(
        code,
        "// SPDX-License-Identifier: UNLICENSED\npragma solidity 0.8.0;\n\nimport {Test} from \"forge-std/Test.sol\";\n\ncontract Foo is Test {\n  function test_Works() external {\n    vm.skip(true);\n    // it works\n  }\n}"
    );
    let mut cfg = Config::default();
    if let Commands::Scaffold(s) = &mut cfg.command {
        s.skip_modifiers = true;
    }
    let code = scaffold("Foo\n└── when a\n    └── when b\n        └── it works", &cfg).unwrap();
    assert_eq!(
        code,
        "// SPDX-License-Identifier: UNLICENSED\npragma solidity 0.8.0;\n\ncontract Foo {\n  function test_WhenB()\n    external\n    whenA\n  {\n    // it works\n  }\n}"
    );
}

#[test]
fn combining_stops_at_the_first_other_contract() {
    let text = "A::f\n└── it x\n\n\nA::g\n└── it y\n\n\nB::h\n└── it z\n\n\nC::i\n└── it w";
    match hir::translate(text).unwrap_err() {
        Error::Combine(e) => {
            assert_eq!(e.text, "B::h");
            assert_eq!(
                e.kind,
                bulloak::hir::combiner::ErrorKind::ContractNameMismatch("B".to_owned(), "A".to_owned())
            );
        },
        other => panic!("unexpected error {other:?}"),
    }
}

#[test]
fn tree_errors_carry_their_tree() {
    let text = "A::f\n└── it x\n\n\nA::g\n└── when y";
    match hir::translate(text).unwrap_err() {
        Error::Semantic(es) => assert!(es.0.iter().all(|e| e.text == "A::g\n└── when y")),
        other => panic!("unexpected error {other:?}"),
    }
}

#[test]
fn comments_are_the_only_difference() {
    let h = hir::translate("Foo\n└── when a\n    ├── it b\n    │   └── because c\n    └── when d\n        └── it e").unwrap();
    let with = Emitter::new(true, 2, "0.8.0").emit(&h);
    let without = Emitter::new(false, 2, "0.8.0").emit(&h);
    let stripped: Vec<&str> = with.split_inclusive('\n').filter(|l| !l.starts_with("    // ")).collect();
    assert_eq!(without, stripped.concat());
    assert_ne!(with, without);
}
