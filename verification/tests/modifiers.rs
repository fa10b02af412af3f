use bulloak::error::Error;
use bulloak::scaffold::modifiers::ModifierDiscoverer;
use bulloak::syntax::parser::Parser;
use bulloak::syntax::tokenizer::Tokenizer;
use indexmap::IndexMap;

fn discover(file_contents: &str) -> Result<IndexMap<String, String>, Error> {
    let tokens = Tokenizer::new().tokenize(file_contents).map_err(Error::Tokenize)?;
    let ast = Parser::new().parse(file_contents, &tokens).map_err(Error::Parse)?;
    let mut discoverer = ModifierDiscoverer::new();
    Ok(discoverer.discover(&ast).clone())
}

    #[test]
    fn modifiers_test_one_child() {
        assert_eq!(
            discover("file.sol\n└── when something bad happens\n   └── it should revert").unwrap(),
            IndexMap::from([(
                "when something bad happens".to_string(),
                "whenSomethingBadHappens".to_string()
            )])
        );
    }

    #[test]
    fn modifiers_test_two_children() {
        assert_eq!(
            discover(
                r"two_children.t.sol
├── when stuff called
│  └── it should revert
└── when not stuff called
   └── it should revert",
            )
            .unwrap(),
            IndexMap::from([
                (
                    "when stuff called".to_string(),
                    "whenStuffCalled".to_string()
                ),
                (
                    "when not stuff called".to_string(),
                    "whenNotStuffCalled".to_string()
                )
            ])
        );
    }

    #[test]
    fn modifiers_test_deep_tree() {
        assert_eq!(
            discover(
                r#"deep.sol
├── when stuff called
│  └── it should revert
└── when not stuff called
   ├── when the deposit amount is zero
   │  └── it should revert
   └── when the deposit amount is not zero
      ├── when the number count is zero
      │  └── it should revert
      ├── when the asset is not a contract
      │  └── it should revert
      └── when the asset is a contract
          ├── when the asset misses the ERC_20 return value
          │  ├── it should create the child
          │  ├── it should perform the ERC-20 transfers
          │  └── it should emit a {MultipleChildren} event
          └── when the asset does not miss the ERC_20 return value
              ├── it should create the child
              └── it should emit a {MultipleChildren} event"#,
            )
            .unwrap(),
            IndexMap::from([
                (
                    "when stuff called".to_string(),
                    "whenStuffCalled".to_string()
                ),
                (
                    "when not stuff called".to_string(),
                    "whenNotStuffCalled".to_string()
                ),
                (
                    "when the deposit amount is zero".to_string(),
                    "whenTheDepositAmountIsZero".to_string()
                ),
                (
                    "when the deposit amount is not zero".to_string(),
                    "whenTheDepositAmountIsNotZero".to_string()
                ),
                (
                    "when the number count is zero".to_string(),
                    "whenTheNumberCountIsZero".to_string()
                ),
                (
                    "when the asset is not a contract".to_string(),
                    "whenTheAssetIsNotAContract".to_string()
                ),
                (
                    "when the asset is a contract".to_string(),
                    "whenTheAssetIsAContract".to_string()
                ),
                (
                    "when the asset misses the ERC_20 return value".to_string(),
                    "whenTheAssetMissesTheERC_20ReturnValue".to_string()
                ),
                (
                    "when the asset does not miss the ERC_20 return value".to_string(),
                    "whenTheAssetDoesNotMissTheERC_20ReturnValue".to_string()
                ),
            ])
        );
    }
