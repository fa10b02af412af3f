use bulloak::check::context::Context;
use bulloak::check::fixing::{fixed_total, next_fix, pending_fix, FixPhase};
use bulloak::check::location::Location;
use bulloak::check::rules::structural_match::StructuralMatcher;
use bulloak::check::utils::offset_to_line_column;
use bulloak::check::violation::{fix_order, get_insertion_offset, insert_function, Violation, ViolationKind};
use bulloak::check::{count_fixable, fixed_summary, report, stdout_report};
use bulloak::hir::{self, FunctionTy, Hir};
use bulloak::sol::{SolContract, SolFunction, SolFunctionTy, SolPart, SolUnitPart};

const TREE: &str = "Foo\n├── it should do a\n└── when b\n    └── it should do c";

fn function_at(src: &str, name: &str) -> SolFunction {
    let text = format!("function {name}() external {{}}");
    let start = src.find(&text).unwrap();
    SolFunction { name: Some(name.to_owned()), ty: SolFunctionTy::Function, start, end: start + text.len() }
}

fn contract_of(src: &str, name: &str, fns: &[&str]) -> SolContract {
    let start = src.find("contract").unwrap();
    SolContract {
        name: Some(name.to_owned()),
        start,
        end: src.rfind('}').unwrap() + 1,
        parts: fns.iter().map(|f| SolPart::Function(function_at(src, f))).collect(),
    }
}

fn context(src: &str, contract: Option<SolContract>) -> Context {
    Context {
        tree: "foo.tree".to_owned(),
        hir: hir::translate(TREE).unwrap(),
        sol: "foo.t.sol".to_owned(),
        src: src.to_owned(),
        pt: contract.map(SolUnitPart::Contract).into_iter().collect(),
        skip_modifiers: false,
    }
}

#[test]
fn matching_file_has_no_violations() {
    let src = "contract Foo {\n    function test_ShouldDoA() external {}\n\n    function helper() external {}\n\n    function test_WhenB() external {}\n}\n";
    let contract = contract_of(src, "Foo", &["test_ShouldDoA", "helper", "test_WhenB"]);
    let ctx = context(src, Some(contract));
    assert!(StructuralMatcher::check(&ctx).is_empty());
    assert_eq!(report(&StructuralMatcher::check(&ctx)), "All checks completed successfully! No issues found.\n");
}

#[test]
fn reports_missing_contract_and_name_mismatch() {
    let ctx = context("pragma solidity 0.8.0;\n", None);
    let violations = StructuralMatcher::check(&ctx);
    assert_eq!(
        violations,
        vec![Violation::new(ViolationKind::ContractMissing("Foo".to_owned()), Location::File("foo.tree".to_owned()))]
    );
    assert_eq!(
        violations[0].to_string(),
        "warn: contract \"Foo\" is missing in .sol\n     = help: consider adding a contract with name \"Foo\"\n     + fix: run `bulloak check --fix foo.tree`\n   --> foo.tree\n"
    );

    let src = "contract Bar {\n    function test_ShouldDoA() external {}\n\n    function test_WhenB() external {}\n}\n";
    let contract = contract_of(src, "Bar", &["test_ShouldDoA", "test_WhenB"]);
    let violations = StructuralMatcher::check(&context(src, Some(contract)));
    assert_eq!(violations.len(), 1);
    assert_eq!(
        violations[0].kind,
        ViolationKind::ContractNameNotMatches("Foo".to_owned(), "Bar".to_owned())
    );
    let fixed = violations[0].kind.fix(&context(src, None)).unwrap();
    assert!(fixed.starts_with("contract Foo {"));
}

#[test]
fn reports_missing_and_misplaced_functions() {
    let src = "contract Foo {\n    function test_WhenB() external {}\n\n    function test_ShouldDoA() external {}\n}\n";
    let contract = contract_of(src, "Foo", &["test_WhenB", "test_ShouldDoA"]);
    let violations = StructuralMatcher::check(&context(src, Some(contract.clone())));
    assert_eq!(violations.len(), 1);
    assert_eq!(
        violations[0].kind,
        ViolationKind::FunctionOrderMismatch(function_at(src, "test_WhenB"), 0, 1)
    );
    assert_eq!(violations[0].location, Location::Code("foo.t.sol".to_owned(), 2));
    assert_eq!(count_fixable(&violations), 1);
    assert_eq!(
        report(&violations),
        "warn: incorrect position for function \"test_WhenB\"\n     = help: consider reordering the function in the file\n     + fix: run `bulloak check --fix foo.t.sol`\n   --> foo.t.sol:2\nwarn: 1 check failed (run `bulloak check --fix <.tree files>` to apply 1 fix)\n"
    );

    let ctx = context(src, Some(contract.clone()));
    let contract_hir = ctx.hir.find_contract().unwrap();
    let fixed = fix_order(&violations, &contract, contract_hir, src);
    let a = "function test_ShouldDoA() external {}";
    let b = "function test_WhenB() external {}";
    let first = src.find(b).unwrap();
    let mut scratch = src.replace(a, &" ".repeat(a.len()));
    scratch = scratch.replace(b, &" ".repeat(b.len()));
    let expected = format!("{}{}\n\n{}{}{}", &src[..first], a, b, &scratch[first..contract.end - contract.start], &src[contract.end - 1..]);
    assert_eq!(fixed, expected);

    let src = "contract Foo {\n    function test_WhenB() external {}\n}\n";
    let contract = contract_of(src, "Foo", &["test_WhenB"]);
    let violations = StructuralMatcher::check(&context(src, Some(contract)));
    assert_eq!(violations.len(), 1);
    match &violations[0].kind {
        ViolationKind::MatchingFunctionMissing(f, 0) => assert_eq!(f.identifier, "test_ShouldDoA"),
        other => panic!("unexpected violation {other:?}"),
    }
    assert_eq!(violations[0].location, Location::Code("foo.tree".to_owned(), 2));
    assert_eq!(
        violations[0].to_string(),
        "warn: function \"test_ShouldDoA\" is missing in .sol\n     + fix: run `bulloak check --fix foo.tree`\n   --> foo.tree:2\n"
    );
}

#[test]
fn inserts_missing_functions() {
    let src = "contract Foo {\n    function test_WhenB() external {}\n}\n";
    let contract = contract_of(src, "Foo", &["test_WhenB"]);
    let hir = hir::translate(TREE).unwrap();
    let contract_hir = hir.find_contract().unwrap();
    assert_eq!(get_insertion_offset(&contract, contract_hir, 0, src), Some(14));
    assert_eq!(get_insertion_offset(&contract, contract_hir, 2, src), Some(src.find('}').unwrap() + 1));
    let f = match &contract_hir.children[0] {
        Hir::FunctionDefinition(f) => f,
        _ => unreachable!(),
    };
    let fixed = insert_function(f, src, 14);
    assert_eq!(
        fixed,
        "contract Foo {\n\n  function test_ShouldDoA() external {\n    // it should do a\n  }\n    function test_WhenB() external {}\n}\n"
    );
    let ctx = context(src, Some(contract));
    let violation = &StructuralMatcher::check(&ctx)[0];
    assert_eq!(violation.kind.fix(&ctx), Some(fixed));
}

#[test]
fn fixes_missing_contracts_from_the_tree() {
    let ctx = context("pragma solidity 0.8.0;\n", None);
    let violation = &StructuralMatcher::check(&ctx)[0];
    assert_eq!(
        violation.kind.fix(&ctx).unwrap(),
        "// SPDX-License-Identifier: UNLICENSED\npragma solidity 0.8.0;\n\ncontract Foo {\n  function test_ShouldDoA() external {\n    // it should do a\n  }\n\n  function test_WhenB() external {\n    // it should do c\n  }\n}"
    );
}

#[test]
fn locates_offsets() {
    assert_eq!(offset_to_line_column("ab\ncd\nef", 0), (1, 1));
    assert_eq!(offset_to_line_column("ab\ncd\nef", 1), (2, 1));
    assert_eq!(offset_to_line_column("ab\ncd\nef", 4), (3, 1));
}

#[test]
fn summarizes_reports() {
    assert_eq!(fixed_summary(1), "\nsuccess: 1 issue fixed.\n");
    assert_eq!(fixed_summary(2), "\nsuccess: 2 issues fixed.\n");
    assert_eq!(stdout_report("foo.t.sol", "\n  code \n"), "--> foo.t.sol\ncode\n<--\n");
}

#[test]
fn describes_other_violations() {
    let v = Violation::new(ViolationKind::SolidityFileMissing("a.tree".to_owned()), Location::File("a.tree".to_owned()));
    assert_eq!(v.help(), Some("consider running `bulloak scaffold a.tree`".to_owned()));
    assert!(!v.is_fixable());
    let v = Violation::new(ViolationKind::SolidityFileMissing("a.t.sol".to_owned()), Location::File("a.tree".to_owned()));
    assert_eq!(v.help(), Some("consider running `bulloak scaffold a.tree`".to_owned()));
    assert_eq!(ViolationKind::FileUnreadable.message(), "bulloak couldn't read the file");
    assert_eq!(ViolationKind::ParsingFailed(None).message(), "an error occurred while parsing the solidity file");
    let err = hir::translate("Foo\n├── it a").unwrap_err();
    assert_eq!(
        ViolationKind::ParsingFailed(Some(err)).message(),
        "an error occurred while parsing the tree: a `Tee` must not be the last child"
    );
    let missing = Violation::new(
        ViolationKind::MatchingFunctionMissing(
            hir::FunctionDefinition {
                identifier: "f".to_owned(),
                ty: FunctionTy::Modifier,
                span: Default::default(),
                modifiers: None,
                children: None,
            },
            0,
        ),
        Location::Code("t.tree".to_owned(), 7),
    );
    assert_eq!(missing.location.to_string(), "t.tree:7");
    assert_eq!(missing.help(), None);
}

#[test]
fn skipping_modifiers_leaves_them_unreported() {
    let src = "contract Foo {\n    function test_WhenC() external {}\n}\n";
    let contract = contract_of(src, "Foo", &["test_WhenC"]);
    let mut ctx = Context {
        tree: "foo.tree".to_owned(),
        hir: hir::translate("Foo\n└── when b\n    └── when c\n        └── it should do d").unwrap(),
        sol: "foo.t.sol".to_owned(),
        src: src.to_owned(),
        pt: vec![SolUnitPart::Contract(contract)],
        skip_modifiers: false,
    };
    let violations = StructuralMatcher::check(&ctx);
    assert_eq!(violations.len(), 1);
    match &violations[0].kind {
        ViolationKind::MatchingFunctionMissing(f, 0) => {
            assert_eq!(f.identifier, "whenB");
            assert_eq!(f.ty, FunctionTy::Modifier);
        },
        other => panic!("unexpected violation {other:?}"),
    }
    ctx.skip_modifiers = true;
    assert!(StructuralMatcher::check(&ctx).is_empty());
}

#[test]
fn fixes_step_by_step() {
    let src = "contract Bar {\n    function test_WhenB() external {}\n\n    function test_ShouldDoA() external {}\n}\n";
    let contract = contract_of(src, "Bar", &["test_WhenB", "test_ShouldDoA"]);
    let ctx = context(src, Some(contract));
    let first = StructuralMatcher::check(&ctx);
    assert_eq!(first.len(), 2);
    assert_eq!(pending_fix(&first, 0), Some(0));
    assert_eq!(pending_fix(&first, 1), None);
    let (phase, fixed) = next_fix(&ctx, &first, FixPhase::Fixing(0));
    assert_eq!(phase, FixPhase::Fixing(1));
    assert_eq!(fixed.unwrap(), src.replace("contract Bar", "contract Foo"));
    assert_eq!(next_fix(&ctx, &first, FixPhase::Fixing(1)), (FixPhase::Reordering, None));
    let (phase, fixed) = next_fix(&ctx, &first, FixPhase::Reordering);
    assert_eq!(phase, FixPhase::Done);
    let contract_hir = ctx.hir.find_contract().unwrap();
    let again = StructuralMatcher::check(&ctx);
    let contract_sol = contract_of(src, "Bar", &["test_WhenB", "test_ShouldDoA"]);
    assert_eq!(fixed.unwrap(), bulloak::check::violation::fix_order(&again, &contract_sol, contract_hir, src));
    assert_eq!(next_fix(&ctx, &first, FixPhase::Done), (FixPhase::Done, None));
    assert_eq!(fixed_total(&vec![1, 2, 4]), 7);
    assert_eq!(fixed_total(&vec![]), 0);
}

#[test]
fn fix_order_puts_unknown_parts_after_separator() {
    let src = "contract Foo {\n    function test_WhenB() external {}\n\n    function helper() external {}\n\n    function test_ShouldDoA() external {}\n}\n";
    let contract = contract_of(src, "Foo", &["test_WhenB", "helper", "test_ShouldDoA"]);
    let ctx = context(src, Some(contract.clone()));
    let violations = StructuralMatcher::check(&ctx);
    assert_eq!(violations.len(), 1);
    assert_eq!(violations[0].kind, ViolationKind::FunctionOrderMismatch(function_at(src, "test_WhenB"), 0, 1));
    let contract_hir = ctx.hir.find_contract().unwrap();
    let fixed = fix_order(&violations, &contract, contract_hir, src);
    let a = "function test_ShouldDoA() external {}";
    let b = "function test_WhenB() external {}";
    let first = src.find(b).unwrap();
    let mut scratch = src.replace(b, &" ".repeat(b.len()));
    scratch = scratch.replace(a, &" ".repeat(a.len()));
    let separator = "\n\n  // <<<<<<<<<<<<<<<<<<<<<<<<<<<<<<<<<<<<<<<<<<<<<<<<<<<<<<<<<<<<<<<<<<<<<<<<<\n  // ==================== BULLOAK AUTOGENERATED SEPARATOR ====================\n  // >>>>>>>>>>>>>>>>>>>>>>>>>>>>>>>>>>>>>>>>>>>>>>>>>>>>>>>>>>>>>>>>>>>>>>>>>\n  //    Code below this section could not be automatically moved by bulloak\n  // =========================================================================\n        ";
    let expected = format!(
        "{}{}\n\n{}{}{}{}",
        &src[..first],
        b,
        a,
        separator,
        &scratch[first..contract.end - contract.start],
        &src[contract.end - 1..]
    );
    assert_eq!(fixed, expected);
    assert!(fixed.starts_with("contract Foo {\n    function test_WhenB() external {}\n\nfunction test_ShouldDoA() external {}"));
    assert!(fixed.ends_with("}\n"));
    assert!(fixed.contains("function helper() external {}"));
}
