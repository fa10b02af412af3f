use bulloak::error::Error;
use bulloak::hir::{self, combiner, Hir};
use bulloak::scaffold::modifiers::ModifierDiscoverer;
use bulloak::span::{Position, Span};
use bulloak::syntax::parser::Parser;
use bulloak::syntax::tokenizer::Tokenizer;

fn translate(text: &str) -> Result<Hir, Error> {
    let tokens = Tokenizer::new().tokenize(&text).map_err(Error::Tokenize)?;
    let ast = Parser::new().parse(&text, &tokens).map_err(Error::Parse)?;
    let mut discoverer = ModifierDiscoverer::new();
    let modifiers = discoverer.discover(&ast);

    Ok(hir::translator::Translator::new().translate(&ast, modifiers))
}

fn combine(hirs: &Vec<Hir>) -> Result<Hir, combiner::Error> {
    combiner::Combiner::new().combine(&hirs)
}

fn root(children: Vec<Hir>) -> Hir {
    Hir::Root(hir::Root { children })
}

fn contract(identifier: String, children: Vec<Hir>) -> Hir {
    Hir::ContractDefinition(hir::ContractDefinition { identifier, children })
}

fn function(
    identifier: String,
    ty: hir::FunctionTy,
    span: Span,
    modifiers: Option<Vec<String>>,
    children: Option<Vec<Hir>>,
) -> Hir {
    Hir::FunctionDefinition(hir::FunctionDefinition { identifier, ty, span, modifiers, children })
}

fn comment(lexeme: String) -> Hir {
    Hir::Comment(hir::Comment { lexeme })
}

#[test]
fn errors_when_contract_names_mismatch() -> Result<(), Error> {
    let trees = vec![
        "Contract::function\n└── when something bad happens\n   └── it should revert",
        "::orphanedFunction\n└── when something bad happens\n   └── it should revert",
    ];
    let hirs = trees.iter().map(|tree| translate(tree)).collect::<Result<Vec<Hir>, Error>>()?;

    let expected = r"•••••••••••••••••••••••••••••••••••••••••••••••••••••••••••••••••••••••••••••••
bulloak error: contract name mismatch: expected 'Contract', found ''";

    match combine(&hirs) {
        Err(e) => assert_eq!(e.to_string(), expected),
        _ => unreachable!("expected an error"),
    }

    Ok(())
}

#[test]
fn duplicate_and_non_function_type_children() -> Result<(), Error> {
    // non-function children aren't pushed to the ContractDefinition
    // duplicate modifiers are deduplicated

    let trees = vec![
        "Contract::function1\n└── when something bad happens\n    └── given something else happens\n   └── it should revert",
        "Contract::function2\n└── when something bad happens\n    └── given the caller is 0x1337\n   └── it should revert",
    ];
    let mut hirs = trees.iter().map(|tree| translate(tree)).collect::<Result<Vec<Hir>, Error>>()?;

    // append a comment HIR to the hirs
    hirs.push(root(vec![comment("this is a random comment".to_owned())]));

    let children = match combine(&hirs).map_err(Error::Combine)? {
        Hir::Root(root) => root.children,
        _ => unreachable!(),
    };

    assert_eq!(
        children,
        vec![contract(
            "Contract".to_owned(),
            vec![
                function(
                    "whenSomethingBadHappens".to_owned(),
                    hir::FunctionTy::Modifier,
                    Span::new(Position::new(20, 2, 1), Position::new(128, 4, 23)),
                    None,
                    None
                ),
                function(
                    "test_RevertWhen_SomethingBadHappens".to_owned(),
                    hir::FunctionTy::Function,
                    Span::new(Position::new(20, 2, 1), Position::new(128, 4, 23)),
                    Some(vec!["whenSomethingBadHappens".to_owned()]),
                    Some(vec![comment("it should revert".to_owned())])
                ),
                function(
                    "test_RevertWhen_SomethingBadHappens".to_owned(),
                    hir::FunctionTy::Function,
                    Span::new(Position::new(20, 2, 1), Position::new(126, 4, 23)),
                    Some(vec!["whenSomethingBadHappens".to_owned()]),
                    Some(vec![comment("it should revert".to_owned())])
                ),
            ]
        )]
    );

    Ok(())
}
