use bulloak::utils::{split_and_retain_delimiter, split_trees, to_pascal_case};

#[test]
fn to_modifier() {
    assert_eq!(to_pascal_case("when only owner"), "WhenOnlyOwner");
    assert_eq!(to_pascal_case("when"), "When");
    assert_eq!(to_pascal_case(""), "");
}

#[test]
fn splits_and_retains_delimiter() {
    let test_cases = vec![
        ("test", "test", vec!["test", ""]),
        ("test", "t", vec!["t", "est", ""]),
        ("test", "e", vec!["te", "st"]),
        ("test", "s", vec!["tes", "t"]),
        ("test", "test", vec!["test", ""]),
        ("test", "", vec!["test"]),
        ("", "test", vec![""]),
    ];

    for (input, delimiter, expected) in test_cases {
        let results = split_and_retain_delimiter(input, delimiter);
        assert_eq!(results, expected, "Failed on input: {}", input);
    }
}

#[test]
fn splits_trees() {
    let test_cases = vec![
        ("Foo_Test\n└── when something bad happens\n   └── it should revert", vec![
            "Foo_Test\n└── when something bad happens\n   └── it should revert",
        ]),
        ("Foo_Test\n└── when something bad happens\n   └── it should revert\n\nFoo_Test2\n└── when something bad happens\n   └── it should revert", vec![
            "Foo_Test\n└── when something bad happens\n   └── it should revert",
            "Foo_Test2\n└── when something bad happens\n   └── it should revert",
        ]),
        ("Foo_Test\n└── when something bad happens\n   └── it should revert\n\n\nFoo_Test2\n└── when something bad happens\n   └── it should revert", vec![
            "Foo_Test\n└── when something bad happens\n   └── it should revert",
            "Foo_Test2\n└── when something bad happens\n   └── it should revert",
        ]),
        ("Foo_Test\n└── when something bad happens\n   └── it should revert\n\n\n\nFoo_Test2\n└── when something bad happens\n   └── it should revert", vec![
            "Foo_Test\n└── when something bad happens\n   └── it should revert",
            "Foo_Test2\n└── when something bad happens\n   └── it should revert",
        ]),
        ("Foo_Test\n└── when something bad happens\n   └── it should revert\n\n\n\n\nFoo_Test2\n└── when something bad happens\n   └── it should revert", vec![
            "Foo_Test\n└── when something bad happens\n   └── it should revert",
            "Foo_Test2\n└── when something bad happens\n   └── it should revert",
        ]),
    ];

    for (input, expected) in test_cases {
        let results: Vec<String> = split_trees(input);
        assert_eq!(results, expected, "Failed on input: {}", input);
    }
}
