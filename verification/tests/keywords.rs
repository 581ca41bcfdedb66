use expreval::keywords::ConstantName;
use expreval::keywords::Function;
use expreval::keywords::FunctionName;
use expreval::keywords::lookup_constant;
use expreval::keywords::lookup_function;

#[test]
fn registry_function_arities() {
    assert_eq!(
        lookup_function(&String::from("sin")),
        Some(Function { name: FunctionName::Sin, argument_count: 1 })
    );
    assert_eq!(
        lookup_function(&String::from("log")),
        Some(Function { name: FunctionName::Log, argument_count: 2 })
    );
    assert_eq!(
        lookup_function(&String::from("sqrt")),
        Some(Function { name: FunctionName::Sqrt, argument_count: 1 })
    );
    assert_eq!(
        lookup_function(&String::from("arctan")),
        Some(Function { name: FunctionName::Arctan, argument_count: 1 })
    );
}

#[test]
fn registry_constants() {
    assert_eq!(lookup_constant(&String::from("pi")), Some(ConstantName::Pi));
    assert_eq!(lookup_constant(&String::from("e")), Some(ConstantName::E));
}

#[test]
fn registry_unknown_names() {
    assert_eq!(lookup_function(&String::from("pi")), None);
    assert_eq!(lookup_function(&String::from("foo")), None);
    assert_eq!(lookup_constant(&String::from("sin")), None);
    assert_eq!(lookup_constant(&String::from("")), None);
}
