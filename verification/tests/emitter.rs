use bulloak::error::Error;
use bulloak::hir::translator::Translator;
use bulloak::scaffold::emitter::Emitter;
use bulloak::scaffold::modifiers::ModifierDiscoverer;
use bulloak::syntax::parser::Parser;
use bulloak::syntax::tokenizer::Tokenizer;

fn scaffold_with_flags(
    text: &str,
    with_comments: bool,
    indent: usize,
    version: &str,
) -> Result<String, Error> {
    let tokens = Tokenizer::new().tokenize(&text).map_err(Error::Tokenize)?;
    let ast = Parser::new().parse(&text, &tokens).map_err(Error::Parse)?;
    let mut discoverer = ModifierDiscoverer::new();
    let modifiers = discoverer.discover(&ast);
    let hir = Translator::new().translate(&ast, modifiers);
    Ok(Emitter::new(with_comments, indent, version).emit(&hir))
}

fn scaffold(text: &str) -> Result<String, Error> {
    scaffold_with_flags(text, true, 2, "0.8.0")
}

    #[test]
    fn emitter_test_one_child() -> Result<(), Error> {
        let file_contents =
            String::from("FileTest\n└── when something bad happens\n   └── it should not revert");

        assert_eq!(
            &scaffold(&file_contents)?,
            r"pragma solidity 0.8.0;

contract FileTest {
  function test_WhenSomethingBadHappens() external {
    // it should not revert
  }
}"
        );

        // Test that "it should revert" actions change the test name.
        let file_contents =
            String::from("FileTest\n└── when something bad happens\n   └── it should revert");

        assert_eq!(
            &scaffold(&file_contents)?,
            r"pragma solidity 0.8.0;

contract FileTest {
  function test_RevertWhen_SomethingBadHappens() external {
    // it should revert
  }
}"
        );

        Ok(())
    }

    #[test]
    fn emitter_test_without_actions_as_comments() -> Result<(), Error> {
        let file_contents =
            String::from("FileTest\n└── when something bad happens\n   └── it should not revert");

        assert_eq!(
            &scaffold_with_flags(&file_contents, false, 2, "0.8.0")?,
            r"pragma solidity 0.8.0;

contract FileTest {
  function test_WhenSomethingBadHappens() external {
  }
}"
        );

        Ok(())
    }

    #[test]
    fn test_actions_without_conditions() -> Result<(), Error> {
        let file_contents = String::from("FileTest\n├── it should do st-ff\n└── It never reverts.");

        assert_eq!(
            &scaffold_with_flags(&file_contents, true, 2, "0.8.0")?,
            r"pragma solidity 0.8.0;

contract FileTest {
  function test_ShouldDoSt_ff() external {
    // it should do st-ff
  }

  function test_NeverReverts() external {
    // It never reverts.
  }
}"
        );

        let file_contents = String::from(
            "FileTest
├── it should do stuff
└── when something happens
    └── it should revert",
        );

        assert_eq!(
            &scaffold_with_flags(&file_contents, true, 2, "0.8.0")?,
            r"pragma solidity 0.8.0;

contract FileTest {
  function test_ShouldDoStuff() external {
    // it should do stuff
  }

  function test_RevertWhen_SomethingHappens() external {
    // it should revert
  }
}"
        );

        let file_contents = String::from(
            "FileTest
├── it should do stuff
├── when something happens
│   └── it should revert
└── it does everything",
        );

        assert_eq!(
            &scaffold_with_flags(&file_contents, true, 2, "0.8.0")?,
            r"pragma solidity 0.8.0;

contract FileTest {
  function test_ShouldDoStuff() external {
    // it should do stuff
  }

  function test_RevertWhen_SomethingHappens() external {
    // it should revert
  }

  function test_DoesEverything() external {
    // it does everything
  }
}"
        );

        Ok(())
    }

    #[test]
    fn emitter_test_unsanitized_input() -> Result<(), Error> {
        let file_contents =
            String::from("Fi-eTest\n└── when something bad happens\n   └── it should not revert");

        assert_eq!(
            &scaffold_with_flags(&file_contents, false, 2, "0.8.0")?,
            r"pragma solidity 0.8.0;

contract Fi_eTest {
  function test_WhenSomethingBadHappens() external {
  }
}"
        );

        Ok(())
    }

    #[test]
    fn emitter_test_indentation() -> Result<(), Error> {
        let file_contents =
            String::from("FileTest\n└── when something bad happens\n   └── it should not revert");

        assert_eq!(
            &scaffold_with_flags(&file_contents, false, 4, "0.8.0")?,
            r"pragma solidity 0.8.0;

contract FileTest {
    function test_WhenSomethingBadHappens() external {
    }
}"
        );

        Ok(())
    }

    #[test]
    fn emitter_test_two_children() -> Result<(), Error> {
        let file_contents = String::from(
            r"TwoChildren_Test
├── when stuff called
│  └── it should revert
└── when not stuff called
   └── it should revert",
        );

        assert_eq!(
            &scaffold(&file_contents)?,
            r"pragma solidity 0.8.0;

contract TwoChildren_Test {
  function test_RevertWhen_StuffCalled() external {
    // it should revert
  }

  function test_RevertWhen_NotStuffCalled() external {
    // it should revert
  }
}"
        );

        Ok(())
    }

    #[test]
    fn emitter_test_action_with_sibling_condition() -> Result<(), Error> {
        let file_contents = String::from(
            r"
Foo_Test
└── when stuff called
    ├── It should do stuff.
    ├── when a called
    │   └── it should revert
    ├── It should do more.
    └── when b called
        └── it should not revert",
        );

        assert_eq!(
            &scaffold(&file_contents)?,
            r"pragma solidity 0.8.0;

contract Foo_Test {
  modifier whenStuffCalled() {
    _;
  }

  function test_WhenStuffCalled()
    external
    whenStuffCalled
  {
    // It should do stuff.
    // It should do more.
  }

  function test_RevertWhen_ACalled()
    external
    whenStuffCalled
  {
    // it should revert
  }

  function test_WhenBCalled()
    external
    whenStuffCalled
  {
    // it should not revert
  }
}"
        );

        Ok(())
    }

    #[test]
    fn emitter_test_action_recollection() -> Result<(), Error> {
        let file_contents = String::from(
            r"ActionsTest
└── when stuff called
   ├── it should revert
   ├── it should be cool
   └── it might break
",
        );

        assert_eq!(
            &scaffold(&file_contents)?,
            r"pragma solidity 0.8.0;

contract ActionsTest {
  function test_WhenStuffCalled() external {
    // it should revert
    // it should be cool
    // it might break
  }
}"
        );

        Ok(())
    }

    #[test]
    fn action_descriptions() -> Result<(), Error> {
        let file_contents = String::from(
            r"DescriptionsTest
└── when something bad happens
   └── it should try to revert
      ├── some stuff happened
      │  └── and that stuff
      └── was very _bad_",
        );

        assert_eq!(
            &scaffold(&file_contents)?,
            r"pragma solidity 0.8.0;

contract DescriptionsTest {
  function test_WhenSomethingBadHappens() external {
    // it should try to revert
    //    some stuff happened
    //       and that stuff
    //    was very _bad_
  }
}"
        );

        Ok(())
    }

    #[test]
    fn emitter_test_deep_tree() -> Result<(), Error> {
        let file_contents = String::from(
            r#"DeepTest
├── when stuff called
│  └── it should revert
└── when not stuff called
   ├── when the deposit amount is zero
   │  └── it should revert
   └── when the deposit amount is not zero
      ├── when the number count is zero
      │  └── it should revert
      ├── when the asset is not a contract
      │  └── it should revert
      └── given the asset is a contract
          ├── when the asset misses the ERC-20 return value
          │  ├── it should create the child
          │  ├── it should perform the ERC-20 transfers
          │  └── it should emit a {MultipleChildren} event
          └── when the asset does not miss the ERC-20 return value
              ├── it should create the child
              └── it should emit a {MultipleChildren} event
                 ├── - Because the deposit should not be 0.
                 ├── - The number count is > 0.
                 └── - Events should be emitted."#,
        );

        assert_eq!(
            &scaffold(&file_contents)?,
            r"pragma solidity 0.8.0;

contract DeepTest {
  function test_RevertWhen_StuffCalled() external {
    // it should revert
  }

  modifier whenNotStuffCalled() {
    _;
  }

  function test_RevertWhen_TheDepositAmountIsZero()
    external
    whenNotStuffCalled
  {
    // it should revert
  }

  modifier whenTheDepositAmountIsNotZero() {
    _;
  }

  function test_RevertWhen_TheNumberCountIsZero()
    external
    whenNotStuffCalled
    whenTheDepositAmountIsNotZero
  {
    // it should revert
  }

  function test_RevertWhen_TheAssetIsNotAContract()
    external
    whenNotStuffCalled
    whenTheDepositAmountIsNotZero
  {
    // it should revert
  }

  modifier givenTheAssetIsAContract() {
    _;
  }

  function test_WhenTheAssetMissesTheERC_20ReturnValue()
    external
    whenNotStuffCalled
    whenTheDepositAmountIsNotZero
    givenTheAssetIsAContract
  {
    // it should create the child
    // it should perform the ERC-20 transfers
    // it should emit a {MultipleChildren} event
  }

  function test_WhenTheAssetDoesNotMissTheERC_20ReturnValue()
    external
    whenNotStuffCalled
    whenTheDepositAmountIsNotZero
    givenTheAssetIsAContract
  {
    // it should create the child
    // it should emit a {MultipleChildren} event
    //    - Because the deposit should not be 0.
    //    - The number count is > 0.
    //    - Events should be emitted.
  }
}"
        );

        Ok(())
    }
