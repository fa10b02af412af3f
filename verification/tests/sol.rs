use bulloak::hir::{self, FunctionTy};
use bulloak::sol::{find_matching_fn, fn_types_match, fns_match, SolContract, SolFunction, SolFunctionTy, SolPart};

fn fn_hir(name: &str, ty: FunctionTy) -> hir::FunctionDefinition {
    hir::FunctionDefinition {
        identifier: name.to_owned(),
        ty,
        span: Default::default(),
        modifiers: Default::default(),
        children: Default::default(),
    }
}

fn fn_sol(name: &str, ty: SolFunctionTy) -> SolFunction {
    SolFunction { name: Some(name.to_owned()), ty, start: 0, end: 0 }
}

fn fn_sol_as_part(name: &str, ty: SolFunctionTy) -> SolPart {
    SolPart::Function(fn_sol(name, ty))
}

#[test]
fn test_fn_types_match() {
    assert!(fn_types_match(&FunctionTy::Function, SolFunctionTy::Function));
    assert!(fn_types_match(&FunctionTy::Modifier, SolFunctionTy::Modifier));
}

#[test]
fn test_fns_match() {
    assert!(fns_match(&fn_hir("my_fn", FunctionTy::Function), &fn_sol("my_fn", SolFunctionTy::Function)));
    assert!(!fns_match(&fn_hir("my_fn", FunctionTy::Function), &fn_sol("not_my_fn", SolFunctionTy::Function)));
    assert!(!fns_match(&fn_hir("not_my_fn", FunctionTy::Function), &fn_sol("my_fn", SolFunctionTy::Function)));
    assert!(fns_match(&fn_hir("my_fn", FunctionTy::Modifier), &fn_sol("my_fn", SolFunctionTy::Modifier)));
    assert!(!fns_match(&fn_hir("my_fn", FunctionTy::Modifier), &fn_sol("my_fn", SolFunctionTy::Function)));
    assert!(!fns_match(&fn_hir("my_fn", FunctionTy::Function), &fn_sol("my_fn", SolFunctionTy::Modifier)));
}

#[test]
fn test_find_matching_fn() {
    let needle_sol = fn_sol("needle", SolFunctionTy::Function);
    let haystack = vec![
        fn_sol_as_part("hay", SolFunctionTy::Function),
        fn_sol_as_part("more_hay", SolFunctionTy::Function),
        fn_sol_as_part("needle", SolFunctionTy::Function),
        fn_sol_as_part("hay_more", SolFunctionTy::Function),
    ];
    let needle_hir = fn_hir("needle", FunctionTy::Function);
    let contract = SolContract { name: None, start: 0, end: 0, parts: haystack };

    let expected = needle_sol;
    let actual = find_matching_fn(&contract, &needle_hir).unwrap();
    assert_eq!((2, &expected), actual);

    let contract = SolContract { name: None, start: 0, end: 0, parts: vec![] };
    let actual = find_matching_fn(&contract, &needle_hir);
    assert_eq!(None, actual);
}

#[test]
fn unnamed_functions_never_match() {
    let unnamed = SolFunction { name: None, ty: SolFunctionTy::Function, start: 0, end: 0 };
    assert!(!fns_match(&fn_hir("f", FunctionTy::Function), &unnamed));
    assert!(!fn_types_match(&FunctionTy::Function, SolFunctionTy::Constructor));
    assert!(!fn_types_match(&FunctionTy::Modifier, SolFunctionTy::Receive));
}
