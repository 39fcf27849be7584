use gget::dependency::{
    has_registry_prefix, imports_from_captures, merge_package, package_name_from_captures,
    DependencyResolver, PackageDependency,
};
use gget::text::{trim_quote_chars, trim_whitespace};

fn caps(items: &[(&str, &str)]) -> Vec<(String, String)> {
    items.iter().map(|(a, b)| (a.to_string(), b.to_string())).collect()
}

fn strings(items: &[&str]) -> Vec<String> {
    items.iter().map(|s| s.to_string()).collect()
}

fn package(name: &str, imports: &[&str]) -> PackageDependency {
    PackageDependency { name: name.to_string(), imports: strings(imports) }
}

#[test]
fn alias_and_blank_imports_give_the_same_set() {
    let mut resolver = DependencyResolver::new().unwrap();
    let plain = resolver.extract_dependencies("package p\nimport \"gno.land/p/demo/x\"\n").unwrap();
    let alias = resolver.extract_dependencies("package p\nimport alias \"gno.land/p/demo/x\"\n").unwrap();
    let blank = resolver.extract_dependencies("package p\nimport _ \"gno.land/p/demo/x\"\n").unwrap();
    assert_eq!(plain.1, strings(&["gno.land/p/demo/x"]));
    assert_eq!(alias.1, plain.1);
    assert_eq!(blank.1, plain.1);
}

#[test]
fn imports_outside_the_registry_are_left_out() {
    let mut resolver = DependencyResolver::new().unwrap();
    let (_, imports) = resolver
        .extract_dependencies("package q\nimport (\n\"fmt\"\n\"strings\"\n\"gno.land/p/demo/avl\"\n\"github.com/x/y\"\n)\n")
        .unwrap();
    assert_eq!(imports, strings(&["gno.land/p/demo/avl"]));
}

#[test]
fn repeated_import_is_listed_once() {
    let mut resolver = DependencyResolver::new().unwrap();
    let (_, imports) = resolver
        .extract_dependencies("package q\nimport (\n\"gno.land/p/a\"\nb \"gno.land/p/a\"\n)\n")
        .unwrap();
    assert_eq!(imports, strings(&["gno.land/p/a"]));
}

#[test]
fn package_name_is_the_last_package_capture() {
    let c = caps(&[("package", "first"), ("alias", "x"), ("package", "second")]);
    assert_eq!(package_name_from_captures(&c), "second");
    assert_eq!(package_name_from_captures(&caps(&[("alias", "x")])), "");
    assert_eq!(package_name_from_captures(&Vec::new()), "");
}

#[test]
fn captured_imports_are_trimmed_filtered_and_deduplicated() {
    let c = caps(&[
        ("import", "\"gno.land/p/demo/avl\""),
        ("alias", "gno.land/p/demo/alias"),
        ("import", "\"fmt\""),
        ("import", "\"gno.land/r/demo/users\""),
        ("import", "\"gno.land/p/demo/avl\""),
        ("package", "gno.land/p/pkg"),
    ]);
    assert_eq!(
        imports_from_captures(&c),
        strings(&["gno.land/p/demo/avl", "gno.land/r/demo/users"])
    );
}

#[test]
fn quotes_are_trimmed_at_both_ends_only() {
    assert_eq!(trim_quote_chars("\"\"a\"b\"\""), "a\"b");
    assert_eq!(trim_quote_chars("\"\"\""), "");
    assert_eq!(trim_quote_chars("plain"), "plain");
    assert_eq!(trim_quote_chars(""), "");
}

#[test]
fn white_space_is_trimmed_at_both_ends_only() {
    assert_eq!(trim_whitespace(" \t a b \r\n"), "a b");
    assert_eq!(trim_whitespace("\u{3000}x\u{a0}"), "x");
    assert_eq!(trim_whitespace("   "), "");
    assert_eq!(trim_whitespace("x"), "x");
}

#[test]
fn registry_prefix_check() {
    assert!(has_registry_prefix("gno.land/p/demo/avl"));
    assert!(has_registry_prefix("gno.land/"));
    assert!(!has_registry_prefix("gno.land"));
    assert!(!has_registry_prefix("fmt"));
    assert!(!has_registry_prefix("xgno.land/p"));
}

#[test]
fn chain_is_ordered_leaf_first() {
    let packages = vec![
        package("A", &["B"]),
        package("B", &["C"]),
        package("C", &[]),
    ];
    let resolver = DependencyResolver::new().unwrap();
    assert_eq!(resolver.generate_deployment_order(&packages), strings(&["C", "B", "A"]));
}

#[test]
fn two_node_cycle_is_placed_last_in_input_order() {
    let packages = vec![package("Z", &[]), package("X", &["Y"]), package("Y", &["X"])];
    let resolver = DependencyResolver::new().unwrap();
    assert_eq!(resolver.generate_deployment_order(&packages), strings(&["Z", "X", "Y"]));
}

#[test]
fn self_import_and_unknown_imports() {
    let packages = vec![
        package("S", &["S", "elsewhere"]),
        package("T", &["elsewhere", "S", "S"]),
        package("U", &["unknown"]),
    ];
    let resolver = DependencyResolver::new().unwrap();
    assert_eq!(resolver.generate_deployment_order(&packages), strings(&["U", "S", "T"]));
}

#[test]
fn empty_package_set_has_empty_order() {
    let resolver = DependencyResolver::new().unwrap();
    assert!(resolver.generate_deployment_order(&Vec::new()).is_empty());
}

#[test]
fn merging_files_of_one_package_unites_imports() {
    let mut packages = Vec::new();
    merge_package(&mut packages, "main".to_string(), strings(&["a", "b"]));
    merge_package(&mut packages, "helper".to_string(), strings(&["c"]));
    merge_package(&mut packages, "main".to_string(), strings(&["b", "d", "d"]));
    assert_eq!(packages.len(), 2);
    assert_eq!(packages[0].name, "main");
    assert_eq!(packages[0].imports, strings(&["a", "b", "d"]));
    assert_eq!(packages[1].name, "helper");
    assert_eq!(packages[1].imports, strings(&["c"]));
}

#[test]
fn deployment_order_is_kahns_first_in_first_out() {
    let packages = vec![
        package("A", &["B", "C"]),
        package("B", &["D"]),
        package("C", &["D"]),
        package("D", &[]),
        package("E", &["A", "D", "fmt"]),
    ];
    let resolver = DependencyResolver::new().unwrap();
    let order = resolver.generate_deployment_order(&packages);
    assert_eq!(order, strings(&["D", "B", "C", "A", "E"]));
    assert_eq!(resolver.generate_deployment_order(&packages), order);
}
