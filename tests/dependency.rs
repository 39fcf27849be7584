use gget::dependency::{DependencyResolver, PackageDependency};

fn has(imports: &[String], path: &str) -> bool {
    imports.iter().any(|i| i == path)
}

fn package(name: &str, imports: &[&str]) -> PackageDependency {
    PackageDependency {
        name: name.to_string(),
        imports: imports.iter().map(|s| s.to_string()).collect(),
    }
}

fn position(order: &[String], name: &str) -> usize {
    order.iter().position(|p| p == name).unwrap()
}

#[test]
fn test_dependency_resolver_creation() {
    let resolver = DependencyResolver::new();
    assert!(
        resolver.is_ok(),
        "DependencyResolver should be created successfully"
    );
}

#[test]
fn test_extract_dependencies_simple() {
    let mut resolver = DependencyResolver::new().unwrap();

    let gno_source = r#"
        package main
        import (
            "gno.land/p/demo/avl"
            "gno.land/p/demo/ufmt"
        )
        func main() {
            avl.NewTree()
            ufmt.Println("Hello")
        }
    "#;

    let result = resolver.extract_dependencies(gno_source);
    assert!(result.is_ok(), "Should parse Gno source successfully");

    let (package_name, imports) = result.unwrap();
    assert_eq!(package_name, "main");
    assert_eq!(imports.len(), 2);
    assert!(has(&imports, "gno.land/p/demo/avl"));
    assert!(has(&imports, "gno.land/p/demo/ufmt"));
}

#[test]
fn test_extract_dependencies_with_aliases() {
    let mut resolver = DependencyResolver::new().unwrap();

    let gno_source = r#"
        package aliases
        import (
            avl "gno.land/p/demo/avl"
            fmt "gno.land/p/demo/ufmt"
            utils "gno.land/p/demo/testutils"
        )
    "#;

    let (package_name, imports) = resolver.extract_dependencies(gno_source).unwrap();
    assert_eq!(package_name, "aliases");
    assert_eq!(imports.len(), 3);
    assert!(has(&imports, "gno.land/p/demo/avl"));
    assert!(has(&imports, "gno.land/p/demo/ufmt"));
    assert!(has(&imports, "gno.land/p/demo/testutils"));
}

#[test]
fn test_extract_dependencies_blank_imports() {
    let mut resolver = DependencyResolver::new().unwrap();

    let gno_source = r#"
        package blank
        import (
            _ "gno.land/p/demo/avl"
            _ "gno.land/p/demo/ufmt"
            "gno.land/p/demo/testutils"
        )
    "#;

    let (package_name, imports) = resolver.extract_dependencies(gno_source).unwrap();
    assert_eq!(package_name, "blank");
    assert_eq!(imports.len(), 3);
    assert!(has(&imports, "gno.land/p/demo/avl"));
    assert!(has(&imports, "gno.land/p/demo/ufmt"));
    assert!(has(&imports, "gno.land/p/demo/testutils"));
}

#[test]
fn test_extract_dependencies_mixed_import_styles() {
    let mut resolver = DependencyResolver::new().unwrap();

    let gno_source = r#"
        package mixed
        import (
            "fmt"
            avl "gno.land/p/demo/avl"
            _ "gno.land/p/demo/ufmt"
            "strings"
            "gno.land/p/demo/testutils"
        )
    "#;

    let (package_name, imports) = resolver.extract_dependencies(gno_source).unwrap();
    assert_eq!(package_name, "mixed");
    assert_eq!(imports.len(), 3);
    assert!(has(&imports, "gno.land/p/demo/avl"));
    assert!(has(&imports, "gno.land/p/demo/ufmt"));
    assert!(has(&imports, "gno.land/p/demo/testutils"));
    assert!(!has(&imports, "fmt"));
    assert!(!has(&imports, "strings"));
}

#[test]
fn test_extract_dependencies_with_standard_library() {
    let mut resolver = DependencyResolver::new().unwrap();

    let gno_source = r#"
        package demo
        import (
            "fmt"
            "strings"
            "gno.land/p/demo/avl"
        )
    "#;

    let (package_name, imports) = resolver.extract_dependencies(gno_source).unwrap();
    assert_eq!(package_name, "demo");
    assert_eq!(imports.len(), 1);
    assert!(has(&imports, "gno.land/p/demo/avl"));
    assert!(!has(&imports, "fmt"));
    assert!(!has(&imports, "strings"));
}

#[test]
fn test_extract_dependencies_single_import() {
    let mut resolver = DependencyResolver::new().unwrap();

    let gno_source = r#"
        package single
        import "gno.land/p/demo/testutils"
    "#;

    let (package_name, imports) = resolver.extract_dependencies(gno_source).unwrap();
    assert_eq!(package_name, "single");
    assert_eq!(imports.len(), 1);
    assert!(has(&imports, "gno.land/p/demo/testutils"));
}

#[test]
fn test_extract_dependencies_no_imports() {
    let mut resolver = DependencyResolver::new().unwrap();

    let gno_source = r#"
        package standalone
        
        func Hello() string {
            return "Hello World"
        }
    "#;

    let (package_name, imports) = resolver.extract_dependencies(gno_source).unwrap();
    assert_eq!(package_name, "standalone");
    assert_eq!(imports.len(), 0);
}

#[test]
fn test_deployment_order_simple_chain() {
    let packages = vec![
        package("gno.land/p/demo/A", &["gno.land/p/demo/B"]),
        package("gno.land/p/demo/B", &["gno.land/p/demo/C"]),
        package("gno.land/p/demo/C", &[]),
    ];

    let resolver = DependencyResolver::new().unwrap();
    let deployment_order = resolver.generate_deployment_order(&packages);

    assert_eq!(deployment_order.len(), 3);

    let c_pos = position(&deployment_order, "gno.land/p/demo/C");
    let b_pos = position(&deployment_order, "gno.land/p/demo/B");
    let a_pos = position(&deployment_order, "gno.land/p/demo/A");

    assert!(c_pos < b_pos, "C should come before B");
    assert!(b_pos < a_pos, "B should come before A");
}

#[test]
fn test_deployment_order_complex_dependencies() {
    let packages = vec![
        package("gno.land/p/demo/A", &["gno.land/p/demo/B", "gno.land/p/demo/C"]),
        package("gno.land/p/demo/B", &["gno.land/p/demo/D"]),
        package("gno.land/p/demo/C", &["gno.land/p/demo/D"]),
        package("gno.land/p/demo/D", &[]),
        package("gno.land/p/demo/E", &["gno.land/p/demo/A", "gno.land/p/demo/D"]),
    ];

    let resolver = DependencyResolver::new().unwrap();
    let deployment_order = resolver.generate_deployment_order(&packages);

    assert_eq!(deployment_order.len(), 5);

    let d_pos = position(&deployment_order, "gno.land/p/demo/D");
    let b_pos = position(&deployment_order, "gno.land/p/demo/B");
    let c_pos = position(&deployment_order, "gno.land/p/demo/C");
    let a_pos = position(&deployment_order, "gno.land/p/demo/A");
    let e_pos = position(&deployment_order, "gno.land/p/demo/E");

    assert!(d_pos < b_pos, "D should come before B");
    assert!(d_pos < c_pos, "D should come before C");
    assert!(d_pos < a_pos, "D should come before A");
    assert!(d_pos < e_pos, "D should come before E");

    assert!(b_pos < a_pos, "B should come before A");
    assert!(c_pos < a_pos, "C should come before A");

    assert!(a_pos < e_pos, "A should come before E");
}

#[test]
fn test_deployment_order_cyclic_dependencies() {
    let packages = vec![
        package("gno.land/p/demo/X", &["gno.land/p/demo/Y"]),
        package("gno.land/p/demo/Y", &["gno.land/p/demo/X"]),
    ];

    let resolver = DependencyResolver::new().unwrap();
    let deployment_order = resolver.generate_deployment_order(&packages);

    assert_eq!(deployment_order.len(), 2);

    let has_x = deployment_order.iter().any(|p| p == "gno.land/p/demo/X");
    let has_y = deployment_order.iter().any(|p| p == "gno.land/p/demo/Y");
    assert!(has_x, "Should include package X");
    assert!(has_y, "Should include package Y");
}

#[test]
fn test_parser_reuse_across_multiple_calls() {
    let mut resolver = DependencyResolver::new().unwrap();

    let source1 = r#"
        package pkg1
        import "gno.land/p/demo/avl"
    "#;

    let source2 = r#"
        package pkg2
        import (
            "gno.land/p/demo/ufmt"
            "gno.land/p/demo/testutils"
        )
    "#;

    let result1 = resolver.extract_dependencies(source1);
    assert!(result1.is_ok());
    let (pkg1, imports1) = result1.unwrap();
    assert_eq!(pkg1, "pkg1");
    assert_eq!(imports1.len(), 1);

    let result2 = resolver.extract_dependencies(source2);
    assert!(result2.is_ok());
    let (pkg2, imports2) = result2.unwrap();
    assert_eq!(pkg2, "pkg2");
    assert_eq!(imports2.len(), 2);
}

#[test]
fn test_invalid_gno_source() {
    let mut resolver = DependencyResolver::new().unwrap();

    let invalid_source = r#"
        this is not valid gno code at all
        ;;; syntax error ;;;
    "#;

    let result = resolver.extract_dependencies(invalid_source);
    match result {
        Ok((pkg, imports)) => {
            println!(
                "Parsed invalid source as package: '{}', imports: {:?}",
                pkg, imports
            );
        }
        Err(_) => {
            println!("Failed to parse invalid source (expected)");
        }
    }
}

#[test]
fn test_empty_source() {
    let mut resolver = DependencyResolver::new().unwrap();

    let result = resolver.extract_dependencies("");
    assert!(result.is_ok());
    let (package_name, imports) = result.unwrap();
    assert!(package_name.is_empty());
    assert!(imports.is_empty());
}

#[test]
fn test_package_only_no_imports() {
    let mut resolver = DependencyResolver::new().unwrap();

    let source = r#"package mypackage"#;

    let result = resolver.extract_dependencies(source);
    assert!(result.is_ok());
    let (package_name, imports) = result.unwrap();
    assert_eq!(package_name, "mypackage");
    assert!(imports.is_empty());
}
